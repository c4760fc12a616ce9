use crate::resource::TypeKey;
use crate::text::push_str;
use vstd::prelude::*;

verus! {

/// Handler for a command type, implemented by the game.
pub trait CommandHandler<C, R> {
    /// Execute the command and return a response.
    fn handle(&self, cmd: C) -> Result<R, String>;
}

/// Handler for a query type, implemented by the game.
pub trait QueryHandler<Q, R> {
    /// Execute the query and return a response.
    fn handle(&self, query: Q) -> Result<R, String>;
}

/// A handler that answers requests given as JSON text.
pub trait JsonHandler {
    /// What answering means: `reply` is an answer that this handler may give
    /// to `request`. By default nothing is promised.
    open spec fn answers(&self, request: Seq<char>, reply: Result<Seq<char>, Seq<char>>) -> bool {
        true
    }

    /// Handle a JSON request and answer with a JSON response.
    fn handle_json(&self, request: &str) -> (r: Result<String, String>)
        ensures
            self.answers(request@, reply_view(r));
}

/// A reply as text: the response or the error message.
pub open spec fn reply_view(r: Result<String, String>) -> Result<Seq<char>, Seq<char>> {
    match r {
        Ok(s) => Ok(s@),
        Err(e) => Err(e@),
    }
}

/// A registered handler: the type key and the protocol name it serves.
pub struct HandlerSlot<E> {
    /// Key of the request type.
    pub key: TypeKey,
    /// Stable protocol name of the request type.
    pub name: String,
    /// The handler.
    pub entry: E,
}

/// What a registered handler holds.
pub open spec fn slot_view<E>(s: HandlerSlot<E>) -> (TypeKey, Seq<char>, E) {
    (s.key, s.name@, s.entry)
}

/// No two handlers of `s` share a type key or a protocol name.
pub open spec fn slots_unique<E>(s: Seq<(TypeKey, Seq<char>, E)>) -> bool {
    forall|i: int, j: int|
        0 <= i < j < s.len() ==> (#[trigger] s[i]).0 != (#[trigger] s[j]).0 && s[i].1 != s[j].1
}

/// The index of the handler of `s` for type key `key`, or -1.
pub open spec fn slot_with_key<E>(s: Seq<(TypeKey, Seq<char>, E)>, key: TypeKey) -> int
    decreases s.len(),
{
    if s.len() == 0 {
        -1
    } else if s.last().0 == key {
        s.len() - 1
    } else {
        slot_with_key(s.drop_last(), key)
    }
}

/// The index of the handler of `s` for protocol name `name`, or -1.
pub open spec fn slot_with_name<E>(s: Seq<(TypeKey, Seq<char>, E)>, name: Seq<char>) -> int
    decreases s.len(),
{
    if s.len() == 0 {
        -1
    } else if s.last().1 == name {
        s.len() - 1
    } else {
        slot_with_name(s.drop_last(), name)
    }
}

/// Why a registration is refused.
#[derive(Clone, Copy, Debug, PartialEq, Eq, Structural)]
pub enum DuplicateHandler {
    /// A handler for the same request type is registered.
    SameType,
    /// A handler for another request type with the same protocol name is registered.
    SameName,
}

/// Registry of command and query handlers, found by request type (local
/// dispatch) or by stable protocol name (remote dispatch). One handler
/// serves one request type and one protocol name.
pub struct HandlerRegistry<E> {
    commands: Vec<HandlerSlot<E>>,
    queries: Vec<HandlerSlot<E>>,
}

proof fn lemma_slot_with_key<E>(s: Seq<(TypeKey, Seq<char>, E)>, key: TypeKey)
    ensures
        -1 <= slot_with_key(s, key) < s.len(),
        slot_with_key(s, key) >= 0 ==> s[slot_with_key(s, key)].0 == key,
        slot_with_key(s, key) == -1 <==> forall|i: int| 0 <= i < s.len() ==> s[i].0 != key,
    decreases s.len(),
{
    if s.len() > 0 && s.last().0 != key {
        lemma_slot_with_key(s.drop_last(), key);
        assert forall|i: int| 0 <= i < s.len() - 1 implies s[i] == s.drop_last()[i] by {}
    }
}

proof fn lemma_slot_with_name<E>(s: Seq<(TypeKey, Seq<char>, E)>, name: Seq<char>)
    ensures
        -1 <= slot_with_name(s, name) < s.len(),
        slot_with_name(s, name) >= 0 ==> s[slot_with_name(s, name)].1 == name,
        slot_with_name(s, name) == -1 <==> forall|i: int| 0 <= i < s.len() ==> s[i].1 != name,
    decreases s.len(),
{
    if s.len() > 0 && s.last().1 != name {
        lemma_slot_with_name(s.drop_last(), name);
        assert forall|i: int| 0 <= i < s.len() - 1 implies s[i] == s.drop_last()[i] by {}
    }
}

/// The index of the slot for `key` in `slots`, if any.
fn find_key<E>(slots: &Vec<HandlerSlot<E>>, key: TypeKey) -> (r: Option<usize>)
    ensures
        match r {
            Some(i) => slot_with_key(slots@.map_values(|s: HandlerSlot<E>| slot_view(s)), key)
                == i,
            None => slot_with_key(slots@.map_values(|s: HandlerSlot<E>| slot_view(s)), key)
                == -1,
        },
{
    let ghost v = slots@.map_values(|s: HandlerSlot<E>| slot_view(s));
    let mut n: usize = slots.len();
    proof {
        assert(v.take(n as int) =~= v);
    }
    while n > 0
        invariant
            n <= slots.len(),
            v == slots@.map_values(|s: HandlerSlot<E>| slot_view(s)),
            slot_with_key(v, key) == slot_with_key(v.take(n as int), key),
        decreases n,
    {
        proof {
            assert(v.take(n as int).drop_last() =~= v.take(n - 1));
        }
        if slots[n - 1].key == key {
            return Some(n - 1);
        }
        n = n - 1;
    }
    None
}

/// The index of the slot for `name` in `slots`, if any.
fn find_name<E>(slots: &Vec<HandlerSlot<E>>, name: &str) -> (r: Option<usize>)
    ensures
        match r {
            Some(i) => slot_with_name(slots@.map_values(|s: HandlerSlot<E>| slot_view(s)), name@)
                == i,
            None => slot_with_name(slots@.map_values(|s: HandlerSlot<E>| slot_view(s)), name@)
                == -1,
        },
{
    let ghost v = slots@.map_values(|s: HandlerSlot<E>| slot_view(s));
    let target = name.to_owned();
    let mut n: usize = slots.len();
    proof {
        assert(v.take(n as int) =~= v);
    }
    while n > 0
        invariant
            n <= slots.len(),
            target@ == name@,
            v == slots@.map_values(|s: HandlerSlot<E>| slot_view(s)),
            slot_with_name(v, name@) == slot_with_name(v.take(n as int), name@),
        decreases n,
    {
        proof {
            assert(v.take(n as int).drop_last() =~= v.take(n - 1));
        }
        if slots[n - 1].name == target {
            return Some(n - 1);
        }
        n = n - 1;
    }
    None
}

impl<E> HandlerRegistry<E> {
    /// The registered command handlers, in registration order.
    pub closed spec fn spec_commands(&self) -> Seq<(TypeKey, Seq<char>, E)> {
        self.commands@.map_values(|s: HandlerSlot<E>| slot_view(s))
    }

    /// The registered query handlers, in registration order.
    pub closed spec fn spec_queries(&self) -> Seq<(TypeKey, Seq<char>, E)> {
        self.queries@.map_values(|s: HandlerSlot<E>| slot_view(s))
    }

    #[verifier::type_invariant]
    spec fn wf(self) -> bool {
        &&& slots_unique(self.spec_commands())
        &&& slots_unique(self.spec_queries())
    }

    /// Create an empty registry.
    pub fn new() -> (r: Self)
        ensures
            r.spec_commands().len() == 0,
            r.spec_queries().len() == 0,
            slots_unique(r.spec_commands()),
            slots_unique(r.spec_queries()),
    {
        let r = HandlerRegistry { commands: Vec::new(), queries: Vec::new() };
        proof {
            assert(r.spec_commands() =~= Seq::empty());
            assert(r.spec_queries() =~= Seq::empty());
        }
        r
    }

    /// Whether a command handler for `key` named `name` may be registered:
    /// refused where a handler for the same type, or else one with the same
    /// protocol name, is registered.
    pub fn check_command(&self, key: TypeKey, name: &str) -> (r: Result<(), DuplicateHandler>)
        ensures
            r == registration_check(self.spec_commands(), key, name@),
    {
        check_slots(&self.commands, key, name)
    }

    /// Whether a query handler for `key` named `name` may be registered.
    pub fn check_query(&self, key: TypeKey, name: &str) -> (r: Result<(), DuplicateHandler>)
        ensures
            r == registration_check(self.spec_queries(), key, name@),
    {
        check_slots(&self.queries, key, name)
    }

    /// Register a command handler for the request type `key` with protocol
    /// name `name`.
    pub fn register_command(&mut self, key: TypeKey, name: String, entry: E)
        requires
            registration_check(old(self).spec_commands(), key, name@) is Ok,
        ensures
            final(self).spec_commands() == old(self).spec_commands().push((key, name@, entry)),
            final(self).spec_queries() == old(self).spec_queries(),
            slots_unique(final(self).spec_commands()),
    {
        proof {
            use_type_invariant(&*self);
            lemma_slot_with_key(self.spec_commands(), key);
            lemma_slot_with_name(self.spec_commands(), name@);
        }
        let ghost old_cmds = self.spec_commands();
        let ghost nv = name@;
        let mut commands: Vec<HandlerSlot<E>> = Vec::new();
        std::mem::swap(&mut commands, &mut self.commands);
        commands.push(HandlerSlot { key, name, entry });
        proof {
            assert(commands@.map_values(|s: HandlerSlot<E>| slot_view(s)) =~= old_cmds.push(
                (key, nv, entry),
            ));
        }
        std::mem::swap(&mut commands, &mut self.commands);
        proof {
            use_type_invariant(&*self);
        }
    }

    /// Register a query handler for the request type `key` with protocol
    /// name `name`.
    pub fn register_query(&mut self, key: TypeKey, name: String, entry: E)
        requires
            registration_check(old(self).spec_queries(), key, name@) is Ok,
        ensures
            final(self).spec_queries() == old(self).spec_queries().push((key, name@, entry)),
            final(self).spec_commands() == old(self).spec_commands(),
            slots_unique(final(self).spec_queries()),
    {
        proof {
            use_type_invariant(&*self);
            lemma_slot_with_key(self.spec_queries(), key);
            lemma_slot_with_name(self.spec_queries(), name@);
        }
        let ghost old_qs = self.spec_queries();
        let ghost nv = name@;
        let mut queries: Vec<HandlerSlot<E>> = Vec::new();
        std::mem::swap(&mut queries, &mut self.queries);
        queries.push(HandlerSlot { key, name, entry });
        proof {
            assert(queries@.map_values(|s: HandlerSlot<E>| slot_view(s)) =~= old_qs.push(
                (key, nv, entry),
            ));
        }
        std::mem::swap(&mut queries, &mut self.queries);
        proof {
            use_type_invariant(&*self);
        }
    }

    /// The command handler that in-process dispatch of a command of type
    /// `key` runs, or `"no handler for command <type_label>"`.
    pub fn dispatch_command(&self, key: TypeKey, type_label: &str) -> (r: Result<&E, String>)
        ensures
            lookup_by_key(self.spec_commands(), key, "no handler for command "@ + type_label@)
                == found_view(r),
    {
        proof {
            lemma_slot_with_key(self.spec_commands(), key);
        }
        match find_key(&self.commands, key) {
            Some(i) => Ok(&self.commands[i].entry),
            None => {
                let mut msg = String::new();
                push_str(&mut msg, "no handler for command ");
                push_str(&mut msg, type_label);
                Err(msg)
            },
        }
    }

    /// The query handler that in-process dispatch of a query of type `key`
    /// runs, or `"no handler for query <type_label>"`.
    pub fn dispatch_query(&self, key: TypeKey, type_label: &str) -> (r: Result<&E, String>)
        ensures
            lookup_by_key(self.spec_queries(), key, "no handler for query "@ + type_label@)
                == found_view(r),
    {
        proof {
            lemma_slot_with_key(self.spec_queries(), key);
        }
        match find_key(&self.queries, key) {
            Some(i) => Ok(&self.queries[i].entry),
            None => {
                let mut msg = String::new();
                push_str(&mut msg, "no handler for query ");
                push_str(&mut msg, type_label);
                Err(msg)
            },
        }
    }

    /// The command handler registered under the protocol name `name`, or
    /// `"unknown command: <name>"`.
    pub fn command_named(&self, name: &str) -> (r: Result<&E, String>)
        ensures
            lookup_by_name(self.spec_commands(), name@, "unknown command: "@ + name@) == found_view(r),
    {
        proof {
            lemma_slot_with_name(self.spec_commands(), name@);
        }
        match find_name(&self.commands, name) {
            Some(i) => Ok(&self.commands[i].entry),
            None => {
                let mut msg = String::new();
                push_str(&mut msg, "unknown command: ");
                push_str(&mut msg, name);
                Err(msg)
            },
        }
    }

    /// The query handler registered under the protocol name `name`, or
    /// `"unknown query: <name>"`.
    pub fn query_named(&self, name: &str) -> (r: Result<&E, String>)
        ensures
            lookup_by_name(self.spec_queries(), name@, "unknown query: "@ + name@) == found_view(r),
    {
        proof {
            lemma_slot_with_name(self.spec_queries(), name@);
        }
        match find_name(&self.queries, name) {
            Some(i) => Ok(&self.queries[i].entry),
            None => {
                let mut msg = String::new();
                push_str(&mut msg, "unknown query: ");
                push_str(&mut msg, name);
                Err(msg)
            },
        }
    }

    /// Returns the number of registered command handlers.
    pub fn command_count(&self) -> (r: usize)
        ensures
            r == self.spec_commands().len(),
    {
        self.commands.len()
    }

    /// Returns the number of registered query handlers.
    pub fn query_count(&self) -> (r: usize)
        ensures
            r == self.spec_queries().len(),
    {
        self.queries.len()
    }
}

impl<E: JsonHandler> HandlerRegistry<E> {
    /// Dispatch a JSON command by its stable protocol name: the handler
    /// registered under the name answers, and an unknown name gives
    /// `"unknown command: <name>"`.
    pub fn dispatch_command_json(&self, protocol_name: &str, request_json: &str) -> (r: Result<
        String,
        String,
    >)
        ensures
            slot_with_name(self.spec_commands(), protocol_name@) == -1 ==> match r {
                Ok(_) => false,
                Err(e) => e@ == "unknown command: "@ + protocol_name@,
            },
            slot_with_name(self.spec_commands(), protocol_name@) != -1 ==> self.spec_commands()[slot_with_name(
                self.spec_commands(),
                protocol_name@,
            )].2.answers(request_json@, reply_view(r)),
    {
        proof {
            lemma_slot_with_name(self.spec_commands(), protocol_name@);
        }
        match self.command_named(protocol_name) {
            Ok(h) => h.handle_json(request_json),
            Err(e) => Err(e),
        }
    }

    /// Dispatch a JSON query by its stable protocol name: the handler
    /// registered under the name answers, and an unknown name gives
    /// `"unknown query: <name>"`.
    pub fn dispatch_query_json(&self, protocol_name: &str, request_json: &str) -> (r: Result<
        String,
        String,
    >)
        ensures
            slot_with_name(self.spec_queries(), protocol_name@) == -1 ==> match r {
                Ok(_) => false,
                Err(e) => e@ == "unknown query: "@ + protocol_name@,
            },
            slot_with_name(self.spec_queries(), protocol_name@) != -1 ==> self.spec_queries()[slot_with_name(
                self.spec_queries(),
                protocol_name@,
            )].2.answers(request_json@, reply_view(r)),
    {
        proof {
            lemma_slot_with_name(self.spec_queries(), protocol_name@);
        }
        match self.query_named(protocol_name) {
            Ok(h) => h.handle_json(request_json),
            Err(e) => Err(e),
        }
    }
}

/// What a lookup gives, by value.
pub open spec fn found_view<E>(r: Result<&E, String>) -> Result<E, Seq<char>> {
    match r {
        Ok(e) => Ok(*e),
        Err(m) => Err(m@),
    }
}

/// Registering `(key, name)` beside `s`: refused where a handler of `s` has
/// the type key, else where one has the protocol name.
pub open spec fn registration_check<E>(s: Seq<(TypeKey, Seq<char>, E)>, key: TypeKey, name: Seq<char>) -> Result<(), DuplicateHandler> {
    if slot_with_key(s, key) >= 0 {
        Err(DuplicateHandler::SameType)
    } else if slot_with_name(s, name) >= 0 {
        Err(DuplicateHandler::SameName)
    } else {
        Ok(())
    }
}

/// The handler of `s` for `key`, or the error text `missing`.
pub open spec fn lookup_by_key<E>(s: Seq<(TypeKey, Seq<char>, E)>, key: TypeKey, missing: Seq<char>) -> Result<E, Seq<char>> {
    let i = slot_with_key(s, key);
    if i >= 0 {
        Ok(s[i].2)
    } else {
        Err(missing)
    }
}

/// The handler of `s` for `name`, or the error text `missing`.
pub open spec fn lookup_by_name<E>(s: Seq<(TypeKey, Seq<char>, E)>, name: Seq<char>, missing: Seq<char>) -> Result<E, Seq<char>> {
    let i = slot_with_name(s, name);
    if i >= 0 {
        Ok(s[i].2)
    } else {
        Err(missing)
    }
}

fn check_slots<E>(slots: &Vec<HandlerSlot<E>>, key: TypeKey, name: &str) -> (r: Result<(), DuplicateHandler>)
    ensures
        r == registration_check(slots@.map_values(|s: HandlerSlot<E>| slot_view(s)), key, name@),
{
    if find_key(slots, key).is_some() {
        return Err(DuplicateHandler::SameType);
    }
    if find_name(slots, name).is_some() {
        return Err(DuplicateHandler::SameName);
    }
    Ok(())
}

/// A handler registered under a type key and a protocol name is what
/// dispatch finds by either of them, and lookups of every other key and name
/// find what they found before.
pub proof fn lemma_registered_handler_found<E>(
    s: Seq<(TypeKey, Seq<char>, E)>,
    key: TypeKey,
    name: Seq<char>,
    entry: E,
    other_key: TypeKey,
    other_name: Seq<char>,
    missing: Seq<char>,
)
    requires
        registration_check(s, key, name) is Ok,
    ensures
        lookup_by_key(s.push((key, name, entry)), key, missing) == Ok::<E, Seq<char>>(entry),
        lookup_by_name(s.push((key, name, entry)), name, missing) == Ok::<E, Seq<char>>(entry),
        other_key != key ==> lookup_by_key(s.push((key, name, entry)), other_key, missing)
            == lookup_by_key(s, other_key, missing),
        other_name != name ==> lookup_by_name(s.push((key, name, entry)), other_name, missing)
            == lookup_by_name(s, other_name, missing),
{
    let t = s.push((key, name, entry));
    assert(t.drop_last() =~= s);
    lemma_slot_with_key(s, other_key);
    lemma_slot_with_name(s, other_name);
}

/// A registration is refused exactly when a handler with the same type key
/// or the same protocol name is registered.
pub proof fn lemma_registration_refused_iff_taken<E>(
    s: Seq<(TypeKey, Seq<char>, E)>,
    key: TypeKey,
    name: Seq<char>,
)
    ensures
        registration_check(s, key, name) is Err <==> exists|i: int|
            0 <= i < s.len() && ((#[trigger] s[i]).0 == key || s[i].1 == name),
{
    lemma_slot_with_key(s, key);
    lemma_slot_with_name(s, name);
    if registration_check(s, key, name) is Err {
        if slot_with_key(s, key) >= 0 {
            let i = slot_with_key(s, key);
            assert(s[i].0 == key);
        } else {
            let i = slot_with_name(s, name);
            assert(s[i].1 == name);
        }
    }
}

} // verus!
