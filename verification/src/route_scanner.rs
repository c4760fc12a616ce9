use crate::manifest::{
    clone_strings, texts, EntryView, HandlerRegistration, ManifestEntry, ManifestView,
    ProtocolManifest, resolved_surfaces,
};
use crate::protocol::ProtocolKind;
use crate::text::{
    chars_end_with, chars_le, chars_of, decimal, ends_with, find_chars, find_from,
    last_path_segment, last_segment_start, lex_le, lemma_lex_total, lemma_lex_trans, push_char,
    push_chars, push_chars_from, push_decimal, push_str, string_of,
};
use vstd::prelude::*;
use vstd::string::StrSliceExecFns;

verus! {

// ===========================================================================
// Types and their views
// ===========================================================================

/// A route file discovered under `api/`.
#[derive(Debug, Clone, PartialEq, Eq)]
pub struct ScannedRoute {
    /// HTTP route path (e.g. `"/api/fleet/dispatch"`).
    pub route_path: String,
    /// Module path suffix used to find the handler (e.g. `"api::fleet::dispatch"`).
    pub module_suffix: String,
}

/// What a scanned route holds.
pub struct RouteView {
    pub route_path: Seq<char>,
    pub module_suffix: Seq<char>,
}

impl View for ScannedRoute {
    type V = RouteView;

    open spec fn view(&self) -> RouteView {
        RouteView { route_path: self.route_path@, module_suffix: self.module_suffix@ }
    }
}

/// The views of a list of scanned routes.
pub open spec fn route_views(v: Seq<ScannedRoute>) -> Seq<RouteView> {
    v.map_values(|r: ScannedRoute| r@)
}

/// Owned handler metadata.
#[derive(Debug, Clone, PartialEq, Eq)]
pub struct HandlerMeta {
    /// Handler function name (e.g. `"dispatch_fleet"`).
    pub name: String,
    /// Full module path (e.g. `"my_game::api::fleet::dispatch"`).
    pub module_name: String,
    /// Request type name (e.g. `"DispatchFleetCmd"`).
    pub request_type: String,
    /// Response type name.
    pub response_type: String,
    /// Error type name.
    pub error_type: String,
}

/// What handler metadata holds.
pub struct HandlerView {
    pub name: Seq<char>,
    pub module_name: Seq<char>,
    pub request_type: Seq<char>,
    pub response_type: Seq<char>,
    pub error_type: Seq<char>,
}

impl View for HandlerMeta {
    type V = HandlerView;

    open spec fn view(&self) -> HandlerView {
        HandlerView {
            name: self.name@,
            module_name: self.module_name@,
            request_type: self.request_type@,
            response_type: self.response_type@,
            error_type: self.error_type@,
        }
    }
}

/// The views of a list of handlers.
pub open spec fn handler_views(v: Seq<HandlerMeta>) -> Seq<HandlerView> {
    v.map_values(|h: HandlerMeta| h@)
}

impl HandlerMeta {
    /// An owned copy of a handler registration.
    pub fn from_registration(reg: &HandlerRegistration) -> (r: Self)
        ensures
            r.name@ == reg.name@,
            r.module_name@ == reg.module_name@,
            r.request_type@ == reg.request_type@,
            r.response_type@ == reg.response_type@,
            r.error_type@ == reg.error_type@,
    {
        HandlerMeta {
            name: reg.name.to_owned(),
            module_name: reg.module_name.to_owned(),
            request_type: reg.request_type.to_owned(),
            response_type: reg.response_type.to_owned(),
            error_type: reg.error_type.to_owned(),
        }
    }
}

/// A route with everything code generation needs.
#[derive(Debug, Clone, PartialEq, Eq)]
pub struct ResolvedRoute {
    /// HTTP route path.
    pub route_path: String,
    /// Module path at the handler's definition site.
    pub handler_module_path: String,
    /// Handler function name.
    pub handler_fn_name: String,
    /// Protocol name of the request type.
    pub protocol_name: String,
    /// Protocol kind (command or query).
    pub kind: ProtocolKind,
    /// Explicit surface memberships; empty means the default surface only.
    pub surfaces: Vec<String>,
}

/// What a resolved route holds.
pub struct ResolvedView {
    pub route_path: Seq<char>,
    pub handler_module_path: Seq<char>,
    pub handler_fn_name: Seq<char>,
    pub protocol_name: Seq<char>,
    pub kind: ProtocolKind,
    pub surfaces: Seq<Seq<char>>,
}

impl View for ResolvedRoute {
    type V = ResolvedView;

    open spec fn view(&self) -> ResolvedView {
        ResolvedView {
            route_path: self.route_path@,
            handler_module_path: self.handler_module_path@,
            handler_fn_name: self.handler_fn_name@,
            protocol_name: self.protocol_name@,
            kind: self.kind,
            surfaces: texts(self.surfaces@),
        }
    }
}

/// The views of a list of resolved routes.
pub open spec fn resolved_views(v: Seq<ResolvedRoute>) -> Seq<ResolvedView> {
    v.map_values(|r: ResolvedRoute| r@)
}

// ===========================================================================
// Identifiers and literals
// ===========================================================================

/// `c` is an ASCII letter or digit.
pub open spec fn is_ascii_alnum(c: char) -> bool {
    ('a' <= c && c <= 'z') || ('A' <= c && c <= 'Z') || ('0' <= c && c <= '9')
}

/// `c` kept if it may stand in an identifier, else `_`.
pub open spec fn ident_char(c: char) -> char {
    if is_ascii_alnum(c) || c == '_' {
        c
    } else {
        '_'
    }
}

/// `s` made into a Rust identifier: every character that is not an ASCII
/// letter, digit or `_` becomes `_`, and `_` goes in front of a leading digit.
pub open spec fn rust_ident(s: Seq<char>) -> Seq<char> {
    let m = s.map_values(|c: char| ident_char(c));
    if m.len() > 0 && '0' <= m[0] && m[0] <= '9' {
        seq!['_'] + m
    } else {
        m
    }
}

/// `s` without its leading slashes.
pub open spec fn trim_leading_slashes(s: Seq<char>) -> Seq<char>
    decreases s.len(),
{
    if s.len() > 0 && s[0] == '/' {
        trim_leading_slashes(s.drop_first())
    } else {
        s
    }
}

/// The function identifier of a route: `/api/fleet/dispatch` gives `api_fleet_dispatch`.
pub open spec fn handler_ident(route_path: Seq<char>) -> Seq<char> {
    rust_ident(trim_leading_slashes(route_path))
}

/// The escape of one character inside a Rust string literal.
pub open spec fn escape_char(c: char) -> Seq<char> {
    if c == '\\' {
        seq!['\\', '\\']
    } else if c == '"' {
        seq!['\\', '"']
    } else {
        seq![c]
    }
}

/// `s` with backslashes and double quotes escaped.
pub open spec fn escaped(s: Seq<char>) -> Seq<char>
    decreases s.len(),
{
    if s.len() == 0 {
        Seq::empty()
    } else {
        escaped(s.drop_last()) + escape_char(s.last())
    }
}

/// `s` as a Rust string literal.
pub open spec fn quoted(s: Seq<char>) -> Seq<char> {
    seq!['"'] + escaped(s) + seq!['"']
}

fn to_rust_ident_chars(s: &Vec<char>) -> (r: String)
    ensures
        r@ == rust_ident(s@),
{
    let mut out = String::new();
    let lead = s.len() > 0 && ((s[0] >= '0' && s[0] <= '9'));
    if lead {
        push_char(&mut out, '_');
    }
    let ghost start = out@;
    let mut i: usize = 0;
    while i < s.len()
        invariant
            i <= s.len(),
            out@ == start + s@.take(i as int).map_values(|c: char| ident_char(c)),
        decreases s.len() - i,
    {
        let c = s[i];
        let k = if (c >= 'a' && c <= 'z') || (c >= 'A' && c <= 'Z') || (c >= '0' && c <= '9')
            || c == '_' {
            c
        } else {
            '_'
        };
        push_char(&mut out, k);
        proof {
            assert(s@.take(i as int).map_values(|c: char| ident_char(c)).push(k) =~= s@.take(
                i + 1 as int,
            ).map_values(|c: char| ident_char(c)));
        }
        i = i + 1;
    }
    proof {
        assert(s@.take(s.len() as int) =~= s@);
        let m = s@.map_values(|c: char| ident_char(c));
        if lead {
            assert(out@ =~= seq!['_'] + m);
        } else {
            assert(out@ =~= m);
        }
    }
    out
}

/// The identifier for `s`, as written into generated code.
pub fn to_rust_ident(s: &str) -> (r: String)
    ensures
        r@ == rust_ident(s@),
{
    let v = chars_of(s);
    to_rust_ident_chars(&v)
}

fn route_to_handler_ident_chars(route_path: &Vec<char>) -> (r: String)
    ensures
        r@ == handler_ident(route_path@),
{
    let mut i: usize = 0;
    proof {
        assert(route_path@.skip(0) =~= route_path@);
    }
    while i < route_path.len() && route_path[i] == '/'
        invariant
            i <= route_path.len(),
            trim_leading_slashes(route_path@) == trim_leading_slashes(route_path@.skip(i as int)),
        decreases route_path.len() - i,
    {
        proof {
            assert(route_path@.skip(i as int).drop_first() =~= route_path@.skip(i + 1));
        }
        i = i + 1;
    }
    let mut rest: Vec<char> = Vec::new();
    let mut j: usize = i;
    while j < route_path.len()
        invariant
            i <= j <= route_path.len(),
            rest@ == route_path@.subrange(i as int, j as int),
        decreases route_path.len() - j,
    {
        rest.push(route_path[j]);
        proof {
            assert(route_path@.subrange(i as int, j as int).push(route_path@[j as int])
                =~= route_path@.subrange(i as int, j + 1 as int));
        }
        j = j + 1;
    }
    proof {
        assert(rest@ =~= route_path@.skip(i as int));
    }
    to_rust_ident_chars(&rest)
}

/// The function identifier for a route path.
pub fn route_to_handler_ident(route_path: &str) -> (r: String)
    ensures
        r@ == handler_ident(route_path@),
{
    let v = chars_of(route_path);
    route_to_handler_ident_chars(&v)
}

/// Appends `s` quoted as a Rust string literal at the end of `out`.
fn push_quoted(out: &mut String, s: &str)
    ensures
        final(out)@ == old(out)@ + quoted(s@),
{
    let v = chars_of(s);
    let ghost start = out@;
    push_char(out, '"');
    let mut i: usize = 0;
    while i < v.len()
        invariant
            i <= v.len(),
            out@ == start + seq!['"'] + escaped(v@.take(i as int)),
        decreases v.len() - i,
    {
        let c = v[i];
        if c == '\\' {
            push_char(out, '\\');
            push_char(out, '\\');
        } else if c == '"' {
            push_char(out, '\\');
            push_char(out, '"');
        } else {
            push_char(out, c);
        }
        proof {
            assert(v@.take(i + 1 as int).drop_last() =~= v@.take(i as int));
            assert(out@ =~= start + seq!['"'] + escaped(v@.take(i + 1 as int)));
        }
        i = i + 1;
    }
    push_char(out, '"');
    proof {
        assert(v@.take(v.len() as int) =~= v@);
        assert(out@ =~= start + quoted(s@));
    }
}

/// Strips any module path prefix from a request type name:
/// `"crate::SpawnUnit"` gives `"SpawnUnit"`, and `"SpawnUnit"` stays as it is.
pub fn strip_type_prefix(qualified: &str) -> (r: &str)
    ensures
        r@ == last_path_segment(qualified@),
{
    let v = chars_of(qualified);
    let start = last_segment_start(&v);
    let r = qualified.substring_char(start, v.len());
    proof {
        assert(qualified@.subrange(start as int, v.len() as int) =~= qualified@.skip(start as int));
    }
    r
}

/// The `crate::`-relative path of a handler function for generated code that
/// is included next to the `api` modules: the part of the module path from its
/// first `::api::` on is kept after `crate::`; a module path without `::api::`
/// is kept whole.
pub open spec fn crate_fn_path(module: Seq<char>, fn_name: Seq<char>) -> Seq<char> {
    let pos = find_from(module, "::api::"@, 0);
    if pos >= 0 {
        "crate::"@ + module.skip(pos + 2) + "::"@ + fn_name
    } else {
        module + "::"@ + fn_name
    }
}

/// Builds the `crate::...::fn_name` path of a handler for generated code.
pub fn crate_relative_handler_fn_path(module: &str, fn_name: &str) -> (r: String)
    ensures
        r@ == crate_fn_path(module@, fn_name@),
{
    let v = chars_of(module);
    let marker = chars_of("::api::");
    let mut out = String::new();
    match find_chars(&v, &marker) {
        Some(pos) => {
            push_str(&mut out, "crate::");
            proof {
                reveal_strlit("::api::");
                crate::text::lemma_find_from_bounds(v@, marker@, 0);
                assert(marker@.len() == 7);
                assert(crate::text::occurs_at(v@, marker@, pos as int));
                assert(pos + 7 <= v.len());
            }
            push_chars_from(&mut out, &v, pos + 2);
        },
        None => {
            push_chars(&mut out, &v);
        },
    }
    push_str(&mut out, "::");
    push_str(&mut out, fn_name);
    proof {
        assert(out@ =~= crate_fn_path(module@, fn_name@));
    }
    out
}

// ===========================================================================
// Scanning route files
// ===========================================================================

/// `p` with every backslash turned into a slash.
pub open spec fn slashed(p: Seq<char>) -> Seq<char> {
    p.map_values(|c: char| if c == '\\' { '/' } else { c })
}

/// `s` without its trailing slashes.
pub open spec fn trim_slashes(s: Seq<char>) -> Seq<char>
    decreases s.len(),
{
    if s.len() > 0 && s.last() == '/' {
        trim_slashes(s.drop_last())
    } else {
        s
    }
}

/// `p` with every backslash turned into a slash and without trailing
/// slashes (a path names the same file with or without them).
pub open spec fn normalized(p: Seq<char>) -> Seq<char> {
    trim_slashes(slashed(p))
}

/// The greatest index below `n` that holds a slash, or -1.
pub open spec fn last_slash_before(s: Seq<char>, n: int) -> int
    decreases n,
{
    if n <= 0 {
        -1
    } else if s[n - 1] == '/' {
        n - 1
    } else {
        last_slash_before(s, n - 1)
    }
}

/// The last `/`-separated component of `s`.
pub open spec fn file_name(s: Seq<char>) -> Seq<char> {
    s.skip(last_slash_before(s, s.len() as int) + 1)
}

/// `s` names a route file: its file name is `<stem>.rs` with a stem that is
/// not empty, does not start with `_` and is not `mod`.
pub open spec fn is_route_file(s: Seq<char>) -> bool {
    let name = file_name(s);
    let n = name.len();
    &&& n > 3
    &&& name[n - 3] == '.'
    &&& name[n - 2] == 'r'
    &&& name[n - 1] == 's'
    &&& name[0] != '_'
    &&& name.take(n - 3) != seq!['m', 'o', 'd']
}

/// A slash-separated path written as a module path (`/` becomes `::`).
pub open spec fn path_to_module(s: Seq<char>) -> Seq<char>
    decreases s.len(),
{
    if s.len() == 0 {
        Seq::empty()
    } else {
        path_to_module(s.drop_last()) + (if s.last() == '/' {
            seq![':', ':']
        } else {
            seq![s.last()]
        })
    }
}

/// The route of a route file `s`: `/` and the path without `.rs`, and that
/// path written as a module path.
pub open spec fn scanned_route(s: Seq<char>) -> RouteView {
    let clean = s.take(s.len() - 3);
    RouteView { route_path: seq!['/'] + clean, module_suffix: path_to_module(clean) }
}

/// The first index from `i` on whose route path comes after `key`, or the
/// length of `s`.
pub open spec fn route_index(s: Seq<RouteView>, key: Seq<char>, i: int) -> int
    decreases s.len() - i,
{
    if i < 0 || i >= s.len() || !lex_le(s[i].route_path, key) {
        i
    } else {
        route_index(s, key, i + 1)
    }
}

/// `r` inserted into `s` after every route whose path is no later than its own.
pub open spec fn insert_route(s: Seq<RouteView>, r: RouteView) -> Seq<RouteView> {
    s.insert(route_index(s, r.route_path, 0), r)
}

/// The routes of `paths`, ordered by route path; routes with the same path
/// keep the order of their files.
pub open spec fn scanned_routes(paths: Seq<Seq<char>>) -> Seq<RouteView>
    decreases paths.len(),
{
    if paths.len() == 0 {
        Seq::empty()
    } else {
        let prev = scanned_routes(paths.drop_last());
        let p = normalized(paths.last());
        if is_route_file(p) {
            insert_route(prev, scanned_route(p))
        } else {
            prev
        }
    }
}

/// The routes of `paths` in the order of their files.
pub open spec fn routes_in_file_order(paths: Seq<Seq<char>>) -> Seq<RouteView>
    decreases paths.len(),
{
    if paths.len() == 0 {
        Seq::empty()
    } else {
        let prev = routes_in_file_order(paths.drop_last());
        let p = normalized(paths.last());
        if is_route_file(p) {
            prev.push(scanned_route(p))
        } else {
            prev
        }
    }
}

/// The text of each path.
pub open spec fn path_texts(paths: Seq<&str>) -> Seq<Seq<char>> {
    paths.map_values(|p: &str| p@)
}

/// Route paths never decrease along `s`.
pub open spec fn sorted_by_route_path(s: Seq<RouteView>) -> bool {
    forall|a: int, b: int| 0 <= a < b < s.len() ==> lex_le(s[a].route_path, s[b].route_path)
}

proof fn lemma_route_index(s: Seq<RouteView>, key: Seq<char>, i: int)
    requires
        0 <= i <= s.len(),
    ensures
        i <= route_index(s, key, i) <= s.len(),
        forall|k: int| i <= k < route_index(s, key, i) ==> lex_le(s[k].route_path, key),
        route_index(s, key, i) < s.len() ==> !lex_le(s[route_index(s, key, i)].route_path, key),
    decreases s.len() - i,
{
    if i < s.len() && lex_le(s[i].route_path, key) {
        lemma_route_index(s, key, i + 1);
    }
}

proof fn lemma_insert_route_sorted(s: Seq<RouteView>, r: RouteView)
    requires
        sorted_by_route_path(s),
    ensures
        sorted_by_route_path(insert_route(s, r)),
{
    let idx = route_index(s, r.route_path, 0);
    lemma_route_index(s, r.route_path, 0);
    let t = insert_route(s, r);
    assert forall|k: int| idx <= k < s.len() implies lex_le(r.route_path, s[k].route_path) by {
        lemma_lex_total(s[idx].route_path, r.route_path);
        if k > idx {
            lemma_lex_trans(r.route_path, s[idx].route_path, s[k].route_path);
        }
    }
    assert forall|a: int, b: int| 0 <= a < b < t.len() implies lex_le(
        t[a].route_path,
        t[b].route_path,
    ) by {
        if b < idx {
        } else if b == idx {
        } else if a < idx {
            lemma_lex_trans(s[a].route_path, r.route_path, s[b - 1].route_path);
        } else if a == idx {
        } else {
        }
    }
}

/// The routes that scanning yields are ordered by route path.
pub proof fn lemma_scanned_routes_sorted(paths: Seq<Seq<char>>)
    ensures
        sorted_by_route_path(scanned_routes(paths)),
    decreases paths.len(),
{
    if paths.len() > 0 {
        lemma_scanned_routes_sorted(paths.drop_last());
        let p = normalized(paths.last());
        if is_route_file(p) {
            lemma_insert_route_sorted(scanned_routes(paths.drop_last()), scanned_route(p));
        }
    }
}

/// Scanning yields exactly one route per route file, each as often as its
/// file occurs: only the order differs from the order of the files.
pub proof fn lemma_scanned_routes_members(paths: Seq<Seq<char>>)
    ensures
        scanned_routes(paths).to_multiset() == routes_in_file_order(paths).to_multiset(),
    decreases paths.len(),
{
    if paths.len() > 0 {
        lemma_scanned_routes_members(paths.drop_last());
        let p = normalized(paths.last());
        if is_route_file(p) {
            let prev = scanned_routes(paths.drop_last());
            lemma_route_index(prev, scanned_route(p).route_path, 0);
            vstd::seq_lib::to_multiset_insert(
                prev,
                route_index(prev, scanned_route(p).route_path, 0),
                scanned_route(p),
            );
            vstd::seq_lib::to_multiset_build(
                routes_in_file_order(paths.drop_last()),
                scanned_route(p),
            );
        }
    }
}

/// Where the file name of `w` starts.
pub(crate) fn file_name_start(w: &Vec<char>) -> (r: usize)
    ensures
        r <= w.len(),
        r == last_slash_before(w@, w.len() as int) + 1,
{
    let mut n: usize = w.len();
    while n > 0
        invariant
            n <= w.len(),
            last_slash_before(w@, w.len() as int) == last_slash_before(w@, n as int),
        decreases n,
    {
        if w[n - 1] == '/' {
            return n;
        }
        n = n - 1;
    }
    0
}

/// The route of one path, if it names a route file, with its route path as characters.
fn scan_one(raw: &str) -> (r: Option<(ScannedRoute, Vec<char>)>)
    ensures
        match r {
            Some((route, key)) => {
                &&& is_route_file(normalized(raw@))
                &&& route@ == scanned_route(normalized(raw@))
                &&& key@ == route.route_path@
            },
            None => !is_route_file(normalized(raw@)),
        },
{
    let v = chars_of(raw);
    let mut w: Vec<char> = Vec::new();
    let mut j: usize = 0;
    while j < v.len()
        invariant
            j <= v.len(),
            w@ == slashed(v@.take(j as int)),
        decreases v.len() - j,
    {
        let c = if v[j] == '\\' {
            '/'
        } else {
            v[j]
        };
        w.push(c);
        proof {
            assert(slashed(v@.take(j as int)).push(c) =~= slashed(v@.take(j + 1 as int)));
        }
        j = j + 1;
    }
    proof {
        assert(v@.take(v.len() as int) =~= v@);
    }
    while w.len() > 0 && w[w.len() - 1] == '/'
        invariant
            trim_slashes(w@) == normalized(raw@),
            v@ == raw@,
        decreases w@.len(),
    {
        let ghost before = w@;
        w.pop();
        proof {
            assert(w@ =~= before.drop_last());
        }
    }
    let ghost s = w@;
    let start = file_name_start(&w);
    let len = w.len();
    let ghost name = file_name(s);
    proof {
        assert(name =~= s.skip(start as int));
    }
    if len - start <= 3 {
        return None;
    }
    if !(w[len - 3] == '.' && w[len - 2] == 'r' && w[len - 1] == 's') {
        proof {
            assert(name[name.len() - 3] == w@[len - 3]);
            assert(name[name.len() - 2] == w@[len - 2]);
            assert(name[name.len() - 1] == w@[len - 1]);
        }
        return None;
    }
    if w[start] == '_' {
        proof {
            assert(name[0] == w@[start as int]);
        }
        return None;
    }
    if len - start == 6 && w[start] == 'm' && w[start + 1] == 'o' && w[start + 2] == 'd' {
        proof {
            assert(name.take(3) =~= seq!['m', 'o', 'd']);
        }
        return None;
    }
    proof {
        if len - start == 6 {
            if name.take(3) == seq!['m', 'o', 'd'] {
                assert(name.take(3)[0] == 'm');
                assert(name.take(3)[1] == 'o');
                assert(name.take(3)[2] == 'd');
            }
        } else {
            assert(name.take(name.len() - 3).len() != 3);
        }
        assert(is_route_file(s));
    }
    let stem_end: usize = len - 3;
    let mut key: Vec<char> = Vec::new();
    key.push('/');
    let mut k: usize = 0;
    while k < stem_end
        invariant
            stem_end <= w.len(),
            k <= stem_end,
            key@ == seq!['/'] + w@.take(k as int),
        decreases stem_end - k,
    {
        key.push(w[k]);
        proof {
            assert(seq!['/'] + w@.take(k as int) + seq![w@[k as int]] =~= seq!['/'] + w@.take(
                k + 1 as int,
            ));
        }
        k = k + 1;
    }
    let route_path = string_of(&key);
    let mut suffix = String::new();
    let mut m: usize = 0;
    while m < stem_end
        invariant
            stem_end <= w.len(),
            m <= stem_end,
            suffix@ == path_to_module(w@.take(m as int)),
        decreases stem_end - m,
    {
        if w[m] == '/' {
            push_char(&mut suffix, ':');
            push_char(&mut suffix, ':');
        } else {
            push_char(&mut suffix, w[m]);
        }
        proof {
            assert(w@.take(m + 1 as int).drop_last() =~= w@.take(m as int));
            assert(suffix@ =~= path_to_module(w@.take(m + 1 as int)));
        }
        m = m + 1;
    }
    let route = ScannedRoute { route_path, module_suffix: suffix };
    Some((route, key))
}

/// Scans a list of paths relative to the project root (e.g.
/// `"api/fleet/dispatch.rs"`) and yields their routes: backslashes count as
/// slashes, trailing slashes are ignored, only `.rs` files count, files
/// whose stem starts with `_` and `mod.rs` are skipped, and the routes are
/// ordered by route path.
pub fn scan_api_routes(relative_paths: &[&str]) -> (r: Vec<ScannedRoute>)
    ensures
        route_views(r@) == scanned_routes(path_texts(relative_paths@)),
{
    let ghost paths = path_texts(relative_paths@);
    let mut out: Vec<ScannedRoute> = Vec::new();
    let mut keys: Vec<Vec<char>> = Vec::new();
    let mut i: usize = 0;
    while i < relative_paths.len()
        invariant
            i <= relative_paths.len(),
            paths == path_texts(relative_paths@),
            route_views(out@) == scanned_routes(paths.take(i as int)),
            keys@.len() == out@.len(),
            forall|k: int| 0 <= k < keys@.len() ==> #[trigger] keys@[k]@ == out@[k].route_path@,
        decreases relative_paths.len() - i,
    {
        proof {
            assert(paths.take(i + 1 as int).drop_last() =~= paths.take(i as int));
        }
        match scan_one(relative_paths[i]) {
            Some((route, key)) => {
                let ghost views = route_views(out@);
                let mut j: usize = 0;
                while j < out.len() && chars_le(&keys[j], &key)
                    invariant
                        j <= out.len(),
                        views == route_views(out@),
                        keys@.len() == out@.len(),
                        forall|k: int|
                            0 <= k < keys@.len() ==> #[trigger] keys@[k]@ == out@[k].route_path@,
                        route_index(views, key@, 0) == route_index(views, key@, j as int),
                    decreases out.len() - j,
                {
                    j = j + 1;
                }
                proof {
                    assert(route_index(views, key@, j as int) == j);
                }
                let ghost rv = route@;
                let ghost old_keys = keys@;
                let ghost old_out = out@;
                out.insert(j, route);
                keys.insert(j, key);
                proof {
                    assert(route_views(out@) =~= views.insert(j as int, rv));
                    assert forall|k: int| 0 <= k < keys@.len() implies #[trigger] keys@[k]@
                        == out@[k].route_path@ by {
                        if k < j {
                            assert(keys@[k] == old_keys[k] && out@[k] == old_out[k]);
                        } else if k > j {
                            assert(keys@[k] == old_keys[k - 1] && out@[k] == old_out[k - 1]);
                        }
                    }
                }
            },
            None => {},
        }
        i = i + 1;
    }
    proof {
        assert(paths.take(relative_paths.len() as int) =~= paths);
    }
    out
}

// ===========================================================================
// Resolving routes against handlers and the manifest
// ===========================================================================

/// A handler defined in module `module` serves the routes of module suffix
/// `suffix`: its module path ends with `::` and the suffix, or is the suffix.
pub open spec fn handler_serves(module: Seq<char>, suffix: Seq<char>) -> bool {
    ends_with(module, "::"@ + suffix) || module == suffix
}

/// The handlers of `hs` that serve `suffix`, in order.
pub open spec fn matching_handlers(hs: Seq<HandlerView>, suffix: Seq<char>) -> Seq<HandlerView>
    decreases hs.len(),
{
    if hs.len() == 0 {
        Seq::empty()
    } else {
        let prev = matching_handlers(hs.drop_last(), suffix);
        if handler_serves(hs.last().module_name, suffix) {
            prev.push(hs.last())
        } else {
            prev
        }
    }
}

/// The names of `hs`, separated by `", "`.
pub open spec fn joined_names(hs: Seq<HandlerView>) -> Seq<char>
    decreases hs.len(),
{
    if hs.len() == 0 {
        Seq::empty()
    } else if hs.len() == 1 {
        hs[0].name
    } else {
        joined_names(hs.drop_last()) + ", "@ + hs.last().name
    }
}

/// The first index from `i` on of an entry named `name`, or -1.
pub open spec fn entry_index(es: Seq<EntryView>, name: Seq<char>, i: int) -> int
    decreases es.len() - i,
{
    if i < 0 || i >= es.len() {
        -1
    } else if es[i].name == name {
        i
    } else {
        entry_index(es, name, i + 1)
    }
}

/// The kind, name and surfaces of the manifest entry for a request type: the
/// first command, else the first query, named like the last `::` segment of
/// the request type.
pub open spec fn lookup_entry(m: ManifestView, request_type: Seq<char>) -> Option<
    (ProtocolKind, Seq<char>, Seq<Seq<char>>),
> {
    let name = last_path_segment(request_type);
    let c = entry_index(m.commands, name, 0);
    let q = entry_index(m.queries, name, 0);
    if c >= 0 {
        Some((ProtocolKind::Command, m.commands[c].name, m.commands[c].surfaces))
    } else if q >= 0 {
        Some((ProtocolKind::Query, m.queries[q].name, m.queries[q].surfaces))
    } else {
        None
    }
}

/// The message for a route that no handler serves.
pub open spec fn no_handler_message(r: RouteView) -> Seq<char> {
    "route "@ + r.route_path + " has no matching handler (expected module suffix '"@
        + r.module_suffix + "')"@
}

/// The message for a route that several handlers serve.
pub open spec fn ambiguous_message(r: RouteView, hs: Seq<HandlerView>) -> Seq<char> {
    "route "@ + r.route_path + " matches "@ + decimal(hs.len()) + " handlers: "@ + joined_names(
        hs,
    )
}

/// The message for a handler whose request type the manifest lacks.
pub open spec fn unknown_request_message(r: RouteView, h: HandlerView) -> Seq<char> {
    "route "@ + r.route_path + " handler '"@ + h.name + "' has request type '"@
        + h.request_type + "' not found in manifest"@
}

/// The message for two routes with the same handler identifier.
pub open spec fn collision_message(
    first: Seq<char>,
    second: Seq<char>,
    ident: Seq<char>,
) -> Seq<char> {
    "routes "@ + first + " and "@ + second + " both map to handler identifier '"@ + ident
        + "' \u{2014} rename one to avoid collision"@
}

/// What resolving one route gives.
pub open spec fn resolution_step(r: RouteView, hs: Seq<HandlerView>, m: ManifestView) -> Result<
    ResolvedView,
    Seq<char>,
> {
    let c = matching_handlers(hs, r.module_suffix);
    if c.len() == 0 {
        Err(no_handler_message(r))
    } else if c.len() > 1 {
        Err(ambiguous_message(r, c))
    } else {
        match lookup_entry(m, c[0].request_type) {
            Some((kind, name, surfaces)) => Ok(
                ResolvedView {
                    route_path: r.route_path,
                    handler_module_path: c[0].module_name,
                    handler_fn_name: c[0].name,
                    protocol_name: name,
                    kind,
                    surfaces,
                },
            ),
            None => Err(unknown_request_message(r, c[0])),
        }
    }
}

/// The routes that resolve, and the messages of those that do not, in order.
pub open spec fn resolution_pass(rs: Seq<RouteView>, hs: Seq<HandlerView>, m: ManifestView) -> (
    Seq<ResolvedView>,
    Seq<Seq<char>>,
)
    decreases rs.len(),
{
    if rs.len() == 0 {
        (Seq::empty(), Seq::empty())
    } else {
        let prev = resolution_pass(rs.drop_last(), hs, m);
        match resolution_step(rs.last(), hs, m) {
            Ok(v) => (prev.0.push(v), prev.1),
            Err(e) => (prev.0, prev.1.push(e)),
        }
    }
}

/// The first index from `i` on of a route with handler identifier `ident`,
/// or the length of `rs`.
pub open spec fn first_with_ident(rs: Seq<ResolvedView>, ident: Seq<char>, i: int) -> int
    decreases rs.len() - i,
{
    if i < 0 || i >= rs.len() || handler_ident(rs[i].route_path) == ident {
        i
    } else {
        first_with_ident(rs, ident, i + 1)
    }
}

/// One message for each of the first `n` routes whose handler identifier an
/// earlier route already has, naming the first such earlier route.
pub open spec fn collision_errors(rs: Seq<ResolvedView>, n: int) -> Seq<Seq<char>>
    decreases n,
{
    if n <= 0 {
        Seq::empty()
    } else {
        let prev = collision_errors(rs, n - 1);
        let ident = handler_ident(rs[n - 1].route_path);
        let f = first_with_ident(rs, ident, 0);
        if f < n - 1 {
            prev.push(collision_message(rs[f].route_path, rs[n - 1].route_path, ident))
        } else {
            prev
        }
    }
}

/// Resolving `rs`: the resolved routes where no message arises, else every
/// message (those of the routes, then the identifier collisions).
pub open spec fn resolve_result(rs: Seq<RouteView>, hs: Seq<HandlerView>, m: ManifestView) -> Result<
    Seq<ResolvedView>,
    Seq<Seq<char>>,
> {
    let pass = resolution_pass(rs, hs, m);
    let all = pass.1 + collision_errors(pass.0, pass.0.len() as int);
    if all.len() == 0 {
        Ok(pass.0)
    } else {
        Err(all)
    }
}

/// The first entry of `entries` named `name`.
fn find_entry(entries: &Vec<ManifestEntry>, name: &String) -> (r: Option<usize>)
    ensures
        match r {
            Some(i) => entry_index(crate::manifest::entry_views(entries@), name@, 0) == i && i
                < entries.len(),
            None => entry_index(crate::manifest::entry_views(entries@), name@, 0) == -1,
        },
{
    let ghost es = crate::manifest::entry_views(entries@);
    let mut i: usize = 0;
    while i < entries.len()
        invariant
            i <= entries.len(),
            es == crate::manifest::entry_views(entries@),
            entry_index(es, name@, 0) == entry_index(es, name@, i as int),
        decreases entries.len() - i,
    {
        if entries[i].name == *name {
            return Some(i);
        }
        i = i + 1;
    }
    None
}

/// The kind, canonical name and surfaces of the manifest entry for a request
/// type, whose path prefix is ignored.
fn lookup_protocol_entry(manifest: &ProtocolManifest, request_type: &str) -> (r: Option<
    (ProtocolKind, String, Vec<String>),
>)
    ensures
        match r {
            Some((kind, name, surfaces)) => lookup_entry(manifest@, request_type@) == Some(
                (kind, name@, texts(surfaces@)),
            ),
            None => lookup_entry(manifest@, request_type@) is None,
        },
{
    let short_name = strip_type_prefix(request_type).to_owned();
    match find_entry(&manifest.commands, &short_name) {
        Some(c) => {
            let e = &manifest.commands[c];
            return Some((ProtocolKind::Command, e.name.clone(), clone_strings(&e.surfaces)));
        },
        None => {},
    }
    match find_entry(&manifest.queries, &short_name) {
        Some(q) => {
            let e = &manifest.queries[q];
            Some((ProtocolKind::Query, e.name.clone(), clone_strings(&e.surfaces)))
        },
        None => None,
    }
}

/// The handlers at the indices `idx` of `hs`.
pub open spec fn picked(hs: Seq<HandlerView>, idx: Seq<usize>) -> Seq<HandlerView> {
    idx.map_values(|i: usize| hs[i as int])
}

/// Appends the names of the handlers at `idx`, separated by `", "`.
fn push_joined_names(out: &mut String, handlers: &[HandlerMeta], idx: &Vec<usize>)
    requires
        forall|j: int| 0 <= j < idx@.len() ==> idx@[j] < handlers@.len(),
    ensures
        final(out)@ == old(out)@ + joined_names(picked(handler_views(handlers@), idx@)),
{
    let ghost hv = handler_views(handlers@);
    let ghost cands = picked(hv, idx@);
    let ghost start = out@;
    let mut t: usize = 0;
    while t < idx.len()
        invariant
            t <= idx.len(),
            forall|j: int| 0 <= j < idx@.len() ==> idx@[j] < handlers@.len(),
            hv == handler_views(handlers@),
            cands == picked(hv, idx@),
            out@ == start + joined_names(cands.take(t as int)),
        decreases idx.len() - t,
    {
        if t > 0 {
            push_str(out, ", ");
        }
        push_str(out, handlers[idx[t]].name.as_str());
        proof {
            assert(cands.take(t + 1 as int).drop_last() =~= cands.take(t as int));
            if t == 0 {
                assert(joined_names(cands.take(0)) =~= Seq::<char>::empty());
                assert(out@ =~= start + joined_names(cands.take(1)));
            } else {
                assert(out@ =~= start + joined_names(cands.take(t + 1 as int)));
            }
        }
        t = t + 1;
    }
    proof {
        assert(cands.take(idx.len() as int) =~= cands);
    }
}

/// Resolves one scanned route.
fn resolve_one(route: &ScannedRoute, handlers: &[HandlerMeta], manifest: &ProtocolManifest) -> (r:
    Result<ResolvedRoute, String>)
    ensures
        match r {
            Ok(v) => resolution_step(route@, handler_views(handlers@), manifest@) == Ok::<
                ResolvedView,
                Seq<char>,
            >(v@),
            Err(e) => resolution_step(route@, handler_views(handlers@), manifest@) == Err::<
                ResolvedView,
                Seq<char>,
            >(e@),
        },
{
    let ghost hv = handler_views(handlers@);
    let ghost suffix = route.module_suffix@;
    let suffix_chars = chars_of(route.module_suffix.as_str());
    let mut needle = chars_of("::");
    let mut a: usize = 0;
    let ghost sep = needle@;
    while a < suffix_chars.len()
        invariant
            a <= suffix_chars.len(),
            suffix_chars@ == suffix,
            needle@ == sep + suffix.take(a as int),
        decreases suffix_chars.len() - a,
    {
        needle.push(suffix_chars[a]);
        proof {
            assert(sep + suffix.take(a as int) + seq![suffix[a as int]] =~= sep + suffix.take(
                a + 1 as int,
            ));
        }
        a = a + 1;
    }
    proof {
        assert(suffix.take(suffix.len() as int) =~= suffix);
    }
    let mut idx: Vec<usize> = Vec::new();
    let mut k: usize = 0;
    while k < handlers.len()
        invariant
            k <= handlers.len(),
            hv == handler_views(handlers@),
            needle@ == "::"@ + suffix,
            suffix == route.module_suffix@,
            forall|j: int| 0 <= j < idx@.len() ==> idx@[j] < k,
            picked(hv, idx@) == matching_handlers(hv.take(k as int), suffix),
        decreases handlers.len() - k,
    {
        let m = chars_of(handlers[k].module_name.as_str());
        let serves = chars_end_with(&m, &needle) || handlers[k].module_name
            == route.module_suffix;
        let ghost before = idx@;
        if serves {
            idx.push(k);
        }
        proof {
            assert(hv.take(k + 1 as int).drop_last() =~= hv.take(k as int));
            assert(hv.take(k + 1 as int).last() == hv[k as int]);
            if serves {
                assert(picked(hv, idx@) =~= picked(hv, before).push(hv[k as int]));
            } else {
                assert(picked(hv, idx@) =~= picked(hv, before));
            }
        }
        k = k + 1;
    }
    proof {
        assert(hv.take(handlers.len() as int) =~= hv);
    }
    let ghost cands = picked(hv, idx@);
    if idx.len() == 0 {
        let mut msg = String::new();
        push_str(&mut msg, "route ");
        push_str(&mut msg, route.route_path.as_str());
        push_str(&mut msg, " has no matching handler (expected module suffix '");
        push_str(&mut msg, route.module_suffix.as_str());
        push_str(&mut msg, "')");
        proof {
            assert(msg@ =~= no_handler_message(route@));
        }
        return Err(msg);
    }
    if idx.len() > 1 {
        let mut msg = String::new();
        push_str(&mut msg, "route ");
        push_str(&mut msg, route.route_path.as_str());
        push_str(&mut msg, " matches ");
        push_decimal(&mut msg, idx.len() as u64);
        push_str(&mut msg, " handlers: ");
        push_joined_names(&mut msg, handlers, &idx);
        proof {
            assert(msg@ =~= ambiguous_message(route@, cands));
        }
        return Err(msg);
    }
    let h = &handlers[idx[0]];
    proof {
        assert(cands[0] == h@);
    }
    match lookup_protocol_entry(manifest, h.request_type.as_str()) {
        Some((kind, protocol_name, surfaces)) => {
            let v = ResolvedRoute {
                route_path: route.route_path.clone(),
                handler_module_path: h.module_name.clone(),
                handler_fn_name: h.name.clone(),
                protocol_name,
                kind,
                surfaces,
            };
            Ok(v)
        },
        None => {
            let mut msg = String::new();
            push_str(&mut msg, "route ");
            push_str(&mut msg, route.route_path.as_str());
            push_str(&mut msg, " handler '");
            push_str(&mut msg, h.name.as_str());
            push_str(&mut msg, "' has request type '");
            push_str(&mut msg, h.request_type.as_str());
            push_str(&mut msg, "' not found in manifest");
            proof {
                assert(msg@ =~= unknown_request_message(route@, h@));
            }
            Err(msg)
        },
    }
}

/// Matches scanned routes to handlers and manifest entries.
///
/// A route's handler is the one whose module path ends with `::` and the
/// route's module suffix (or is that suffix); the handler's request type,
/// without its path prefix, names the manifest command or query that gives
/// the route its kind and surfaces. Routes with no handler, with several, or
/// whose request type the manifest lacks, and routes whose handler
/// identifiers collide, are reported; the resolved routes are returned only
/// when there is nothing to report.
pub fn resolve_routes(
    scanned: &[ScannedRoute],
    handlers: &[HandlerMeta],
    manifest: &ProtocolManifest,
) -> (r: Result<Vec<ResolvedRoute>, Vec<String>>)
    ensures
        match r {
            Ok(v) => resolve_result(route_views(scanned@), handler_views(handlers@), manifest@)
                == Ok::<Seq<ResolvedView>, Seq<Seq<char>>>(resolved_views(v@)),
            Err(e) => resolve_result(route_views(scanned@), handler_views(handlers@), manifest@)
                == Err::<Seq<ResolvedView>, Seq<Seq<char>>>(texts(e@)),
        },
{
    let ghost rv = route_views(scanned@);
    let ghost hv = handler_views(handlers@);
    let mut resolved: Vec<ResolvedRoute> = Vec::new();
    let mut errors: Vec<String> = Vec::new();
    let mut i: usize = 0;
    while i < scanned.len()
        invariant
            i <= scanned.len(),
            rv == route_views(scanned@),
            hv == handler_views(handlers@),
            resolution_pass(rv.take(i as int), hv, manifest@) == (
            resolved_views(resolved@),
            texts(errors@),
            ),
        decreases scanned.len() - i,
    {
        proof {
            assert(rv.take(i + 1 as int).drop_last() =~= rv.take(i as int));
            assert(rv.take(i + 1 as int).last() == scanned@[i as int]@);
        }
        let ghost before_ok = resolved@;
        let ghost before_err = errors@;
        match resolve_one(&scanned[i], handlers, manifest) {
            Ok(v) => {
                resolved.push(v);
                proof {
                    assert(resolved_views(resolved@) =~= resolved_views(before_ok).push(
                        resolved@.last()@,
                    ));
                }
            },
            Err(e) => {
                errors.push(e);
                proof {
                    assert(texts(errors@) =~= texts(before_err).push(errors@.last()@));
                }
            },
        }
        i = i + 1;
    }
    proof {
        assert(rv.take(scanned.len() as int) =~= rv);
    }
    let ghost pass = resolution_pass(rv, hv, manifest@);
    let ghost ok = pass.0;
    let mut idents: Vec<String> = Vec::new();
    let mut t: usize = 0;
    while t < resolved.len()
        invariant
            t <= resolved.len(),
            ok == resolved_views(resolved@),
            idents@.len() == t,
            forall|j: int| 0 <= j < t ==> #[trigger] idents@[j]@ == handler_ident(ok[j].route_path),
        decreases resolved.len() - t,
    {
        idents.push(route_to_handler_ident(resolved[t].route_path.as_str()));
        t = t + 1;
    }
    let mut n: usize = 0;
    while n < resolved.len()
        invariant
            n <= resolved.len(),
            ok == resolved_views(resolved@),
            idents@.len() == resolved@.len(),
            forall|j: int|
                0 <= j < idents@.len() ==> #[trigger] idents@[j]@ == handler_ident(ok[j].route_path),
            texts(errors@) == pass.1 + collision_errors(ok, n as int),
        decreases resolved.len() - n,
    {
        let ghost ident = idents@[n as int]@;
        let mut f: usize = 0;
        while f < n && !(idents[f] == idents[n])
            invariant
                f <= n < idents@.len(),
                idents@.len() == resolved@.len(),
                ok == resolved_views(resolved@),
                ident == idents@[n as int]@,
                forall|j: int|
                    0 <= j < idents@.len() ==> #[trigger] idents@[j]@ == handler_ident(
                        ok[j].route_path,
                    ),
                first_with_ident(ok, ident, 0) == first_with_ident(ok, ident, f as int),
            decreases n - f,
        {
            f = f + 1;
        }
        proof {
            if f < n {
                assert(first_with_ident(ok, ident, f as int) == f);
            } else {
                assert(handler_ident(ok[n as int].route_path) == ident);
                assert(first_with_ident(ok, ident, n as int) == n);
            }
        }
        let ghost before = errors@;
        if f < n {
            let mut msg = String::new();
            push_str(&mut msg, "routes ");
            push_str(&mut msg, resolved[f].route_path.as_str());
            push_str(&mut msg, " and ");
            push_str(&mut msg, resolved[n].route_path.as_str());
            push_str(&mut msg, " both map to handler identifier '");
            push_str(&mut msg, idents[n].as_str());
            push_str(&mut msg, "' \u{2014} rename one to avoid collision");
            errors.push(msg);
            proof {
                assert(msg@ =~= collision_message(ok[f as int].route_path, ok[n as int].route_path, ident));
                assert(texts(errors@) =~= texts(before).push(msg@));
            }
        }
        n = n + 1;
    }
    if errors.len() == 0 {
        Ok(resolved)
    } else {
        Err(errors)
    }
}

// ===========================================================================
// Generating the axum glue
// ===========================================================================

/// Route `r` belongs to `surface`: the default surface where the route names
/// none, else one of those it names.
pub open spec fn route_in_surface(r: ResolvedView, surface: Seq<char>, default_surface: Seq<char>) -> bool {
    if r.surfaces.len() == 0 {
        surface == default_surface
    } else {
        r.surfaces.contains(surface)
    }
}

/// The line that mounts route `r` in a router.
pub open spec fn route_line(r: ResolvedView) -> Seq<char> {
    "        .route("@ + quoted(r.route_path) + ", routing::post("@ + handler_ident(r.route_path)
        + "))\n"@
}

/// A route is mounted in the router of every surface it names, wherever in
/// its list the surface stands, and in no other; a route that names none is
/// mounted in the default surface's router only.
pub proof fn lemma_route_mounted_in_named_surfaces(r: ResolvedView, s: Seq<char>, d: Seq<char>, j: int)
    ensures
        r.surfaces.len() > 0 ==> (route_in_surface(r, s, d) <==> exists|k: int| 0 <= k < r.surfaces.len() && r.surfaces[k] == s),
        r.surfaces.len() == 0 ==> (route_in_surface(r, s, d) <==> s == d),
        0 <= j < r.surfaces.len() ==> route_lines(seq![r], Some((r.surfaces[j], d))) == route_line(r),
        r.surfaces.len() > 0 && (forall|k: int| 0 <= k < r.surfaces.len() ==> r.surfaces[k] != s) ==>
            route_lines(seq![r], Some((s, d))) == Seq::<char>::empty(),
{
    let one = seq![r];
    assert(one.drop_last() =~= Seq::<ResolvedView>::empty());
    assert(one.last() == r);
    reveal_with_fuel(route_lines, 2);
    if 0 <= j < r.surfaces.len() {
        assert(r.surfaces.contains(r.surfaces[j]));
        assert(route_lines(one, Some((r.surfaces[j], d))) =~= route_line(r));
    }
    if r.surfaces.len() > 0 && (forall|k: int| 0 <= k < r.surfaces.len() ==> r.surfaces[k] != s) {
        assert(!r.surfaces.contains(s));
        assert(route_lines(one, Some((s, d))) =~= Seq::<char>::empty());
    }
}

/// The mount lines of the routes of `rs` that pass `filter`: every route
/// where it is `None`, those of the surface `s` (with default surface `d`)
/// where it is `Some((s, d))`.
pub open spec fn route_lines(rs: Seq<ResolvedView>, filter: Option<(Seq<char>, Seq<char>)>) -> Seq<
    char,
>
    decreases rs.len(),
{
    if rs.len() == 0 {
        Seq::empty()
    } else {
        let keep = match filter {
            Some((s, d)) => route_in_surface(rs.last(), s, d),
            None => true,
        };
        route_lines(rs.drop_last(), filter) + if keep {
            route_line(rs.last())
        } else {
            Seq::empty()
        }
    }
}

/// A router function named `name` that mounts `lines`.
pub open spec fn router_fn(name: Seq<char>, lines: Seq<char>) -> Seq<char> {
    "pub fn "@ + name + "() -> Router<Arc<Mutex<World>>> {\n"@ + "    Router::new()\n"@ + lines
        + "}\n\n"@
}

/// One router function per surface, `<surface>_router`, in the order of the surfaces.
pub open spec fn surface_routers(
    surfaces: Seq<Seq<char>>,
    rs: Seq<ResolvedView>,
    default_surface: Seq<char>,
) -> Seq<char>
    decreases surfaces.len(),
{
    if surfaces.len() == 0 {
        Seq::empty()
    } else {
        surface_routers(surfaces.drop_last(), rs, default_surface) + router_fn(
            rust_ident(surfaces.last()) + "_router"@,
            route_lines(rs, Some((surfaces.last(), default_surface))),
        )
    }
}

/// The first index from `i` on of a surface with identifier `ident`, or the
/// length of `ss`.
pub open spec fn first_surface_with_ident(ss: Seq<Seq<char>>, ident: Seq<char>, i: int) -> int
    decreases ss.len() - i,
{
    if i < 0 || i >= ss.len() || rust_ident(ss[i]) == ident {
        i
    } else {
        first_surface_with_ident(ss, ident, i + 1)
    }
}

/// The first index from `n` on of a surface whose identifier an earlier
/// surface already has, or -1.
pub open spec fn first_surface_collision(ss: Seq<Seq<char>>, n: int) -> int
    decreases ss.len() - n,
{
    if n < 0 || n >= ss.len() {
        -1
    } else if first_surface_with_ident(ss, rust_ident(ss[n]), 0) < n {
        n
    } else {
        first_surface_collision(ss, n + 1)
    }
}

/// The message for two surfaces with the same identifier.
pub open spec fn surface_collision_message(
    first: Seq<char>,
    second: Seq<char>,
    ident: Seq<char>,
) -> Seq<char> {
    "surfaces '"@ + first + "' and '"@ + second + "' both sanitise to identifier '"@ + ident
        + "' \u{2014} rename one to avoid collision"@
}

/// The name of a protocol kind.
pub open spec fn kind_name(k: ProtocolKind) -> Seq<char> {
    match k {
        ProtocolKind::Command => "Command"@,
        ProtocolKind::Query => "Query"@,
        ProtocolKind::Event => "Event"@,
        ProtocolKind::Dto => "Dto"@,
    }
}

/// The head of the synchronous function generated for route `r`, up to its
/// handler call.
pub open spec fn json_fn_head(r: ResolvedView) -> Seq<char> {
    "// protocol: "@ + r.protocol_name + " ("@ + kind_name(r.kind) + ")\n"@ + "fn "@
        + handler_ident(r.route_path) + "_json(\n"@ + "    json: &str,\n"@
        + "    world: &mut galeon_engine::World,\n"@
        + ") -> Result<serde_json::Value, String> {\n"@
}

/// The body of the synchronous function generated for route `r`: it turns
/// the handler into a boxed handler and runs it on the JSON body.
pub open spec fn json_fn_body(r: ResolvedView) -> Seq<char> {
    "    use galeon_engine::handler_function::IntoHandler;\n"@ + "    let mut h = "@
        + crate_fn_path(r.handler_module_path, r.handler_fn_name) + ".into_handler("@ + quoted(
        r.handler_fn_name,
    ) + ");\n"@ + "    galeon_engine::run_json_handler_value(&mut *h, json, world)\n"@ + "}\n"@
}

/// The axum handler generated for route `r`: it locks the world and calls
/// the synchronous function.
pub open spec fn axum_fn_text(r: ResolvedView) -> Seq<char> {
    let name = handler_ident(r.route_path);
    "async fn "@ + name + "(\n"@ + "    State(world): State<Arc<Mutex<World>>>,\n"@
        + "    Json(body): Json<serde_json::Value>,\n"@
        + ") -> Result<Json<serde_json::Value>, (StatusCode, String)> {\n"@
        + "    let json = body.to_string();\n"@ + "    let mut guard = world\n"@
        + "        .lock()\n"@
        + "        .map_err(|e| (StatusCode::INTERNAL_SERVER_ERROR, e.to_string()))?;\n"@
        + "    let v = "@ + name + "_json(&json, &mut *guard)\n"@
        + "        .map_err(|e| (StatusCode::INTERNAL_SERVER_ERROR, e))?;\n"@ + "    Ok(Json(v))\n"@
        + "}\n\n"@
}

/// The two functions generated for route `r`.
pub open spec fn handler_fn_text(r: ResolvedView) -> Seq<char> {
    json_fn_head(r) + json_fn_body(r) + axum_fn_text(r)
}

/// The handler functions of the first `n` routes of `rs`, one for each
/// handler identifier, at the first route that has it.
pub open spec fn handler_fns(rs: Seq<ResolvedView>, n: int) -> Seq<char>
    decreases n,
{
    if n <= 0 {
        Seq::empty()
    } else {
        handler_fns(rs, n - 1) + if first_with_ident(rs, handler_ident(rs[n - 1].route_path), 0)
            == n - 1 {
            handler_fn_text(rs[n - 1])
        } else {
            Seq::empty()
        }
    }
}

/// The head of the generated file.
pub open spec fn routes_header(m: ManifestView) -> Seq<char> {
    "// Auto-generated by Galeon Engine \u{2014} do not edit.\n"@ + "// Protocol: "@
        + m.protocol_version + "\n\n"@ + "use axum::extract::State;\n"@
        + "use axum::http::StatusCode;\n"@ + "use axum::{Json, Router, routing};\n"@
        + "use galeon_engine::World;\n"@ + "use std::sync::{Arc, Mutex};\n"@ + "\n"@
}

/// The generated `routes.rs`: the head, a plain `router()` where the
/// manifest serves one surface (else one `<surface>_router()` per surface),
/// then the handler functions; an error where two surfaces have the same
/// identifier.
pub open spec fn generated_routes(rs: Seq<ResolvedView>, m: ManifestView) -> Result<
    Seq<char>,
    Seq<char>,
> {
    let ss = resolved_surfaces(m);
    let c = first_surface_collision(ss, 0);
    if ss.len() != 1 && c >= 0 {
        let ident = rust_ident(ss[c]);
        Err(surface_collision_message(ss[first_surface_with_ident(ss, ident, 0)], ss[c], ident))
    } else {
        let routers = if ss.len() == 1 {
            router_fn("router"@, route_lines(rs, None))
        } else {
            surface_routers(ss, rs, m.default_surface)
        };
        Ok(routes_header(m) + routers + handler_fns(rs, rs.len() as int))
    }
}

/// Whether a route belongs to a surface.
fn route_belongs_to_surface(route: &ResolvedRoute, surface: &String, default_surface: &String) -> (r:
    bool)
    ensures
        r == route_in_surface(route@, surface@, default_surface@),
{
    if route.surfaces.len() == 0 {
        return *surface == *default_surface;
    }
    let ghost ts = texts(route.surfaces@);
    let mut k: usize = 0;
    while k < route.surfaces.len()
        invariant
            k <= route.surfaces.len(),
            ts == texts(route.surfaces@),
            forall|j: int| 0 <= j < k ==> ts[j] != surface@,
        decreases route.surfaces.len() - k,
    {
        if route.surfaces[k] == *surface {
            proof {
                assert(ts[k as int] == surface@);
            }
            return true;
        }
        k = k + 1;
    }
    false
}

/// Appends a router function named `fn_name` mounting the routes that pass `filter`.
fn emit_router_fn(
    out: &mut String,
    fn_name: &str,
    routes: &[ResolvedRoute],
    filter: Option<(&String, &String)>,
)
    ensures
        final(out)@ == old(out)@ + router_fn(
            fn_name@,
            route_lines(
                resolved_views(routes@),
                match filter {
                    Some((s, d)) => Some((s@, d@)),
                    None => None,
                },
            ),
        ),
{
    let ghost rv = resolved_views(routes@);
    let ghost fv: Option<(Seq<char>, Seq<char>)> = match filter {
        Some((s, d)) => Some((s@, d@)),
        None => None,
    };
    let ghost start = out@;
    push_str(out, "pub fn ");
    push_str(out, fn_name);
    push_str(out, "() -> Router<Arc<Mutex<World>>> {\n");
    push_str(out, "    Router::new()\n");
    let ghost head = out@;
    let mut i: usize = 0;
    while i < routes.len()
        invariant
            i <= routes.len(),
            rv == resolved_views(routes@),
            out@ == head + route_lines(rv.take(i as int), fv),
            fv == match filter {
                Some((s, d)) => Some((s@, d@)),
                None => None,
            },
        decreases routes.len() - i,
    {
        let keep = match filter {
            Some((s, d)) => route_belongs_to_surface(&routes[i], s, d),
            None => true,
        };
        let ghost before = out@;
        if keep {
            push_str(out, "        .route(");
            push_quoted(out, routes[i].route_path.as_str());
            push_str(out, ", routing::post(");
            let ident = route_to_handler_ident(routes[i].route_path.as_str());
            push_str(out, ident.as_str());
            push_str(out, "))\n");
        }
        proof {
            assert(rv.take(i + 1 as int).drop_last() =~= rv.take(i as int));
            assert(rv.take(i + 1 as int).last() == routes@[i as int]@);
            if keep {
                assert(out@ =~= before + route_line(routes@[i as int]@));
            }
            assert(out@ =~= head + route_lines(rv.take(i + 1 as int), fv));
        }
        i = i + 1;
    }
    push_str(out, "}\n\n");
    proof {
        assert(rv.take(routes.len() as int) =~= rv);
        assert(out@ =~= start + router_fn(fn_name@, route_lines(rv, fv)));
    }
}

/// Appends the name of a protocol kind.
fn push_kind_name(out: &mut String, kind: ProtocolKind)
    ensures
        final(out)@ == old(out)@ + kind_name(kind),
{
    match kind {
        ProtocolKind::Command => push_str(out, "Command"),
        ProtocolKind::Query => push_str(out, "Query"),
        ProtocolKind::Event => push_str(out, "Event"),
        ProtocolKind::Dto => push_str(out, "Dto"),
    }
}

fn emit_json_fn_head(out: &mut String, route: &ResolvedRoute, name: &String)
    requires
        name@ == handler_ident(route.route_path@),
    ensures
        final(out)@ == old(out)@ + json_fn_head(route@),
{
    let ghost start = out@;
    push_str(out, "// protocol: ");
    push_str(out, route.protocol_name.as_str());
    push_str(out, " (");
    push_kind_name(out, route.kind);
    push_str(out, ")\n");
    push_str(out, "fn ");
    push_str(out, name.as_str());
    push_str(out, "_json(\n");
    push_str(out, "    json: &str,\n");
    push_str(out, "    world: &mut galeon_engine::World,\n");
    push_str(out, ") -> Result<serde_json::Value, String> {\n");
    proof {
        assert(out@ =~= start + json_fn_head(route@));
    }
}

fn emit_json_fn_body(out: &mut String, route: &ResolvedRoute)
    ensures
        final(out)@ == old(out)@ + json_fn_body(route@),
{
    let ghost start = out@;
    let fn_path = crate_relative_handler_fn_path(
        route.handler_module_path.as_str(),
        route.handler_fn_name.as_str(),
    );
    push_str(out, "    use galeon_engine::handler_function::IntoHandler;\n");
    push_str(out, "    let mut h = ");
    push_str(out, fn_path.as_str());
    push_str(out, ".into_handler(");
    push_quoted(out, route.handler_fn_name.as_str());
    push_str(out, ");\n");
    push_str(out, "    galeon_engine::run_json_handler_value(&mut *h, json, world)\n");
    push_str(out, "}\n");
    proof {
        assert(out@ =~= start + json_fn_body(route@));
    }
}

fn emit_axum_fn(out: &mut String, route: &ResolvedRoute, name: &String)
    requires
        name@ == handler_ident(route.route_path@),
    ensures
        final(out)@ == old(out)@ + axum_fn_text(route@),
{
    let ghost start = out@;
    push_str(out, "async fn ");
    push_str(out, name.as_str());
    push_str(out, "(\n");
    push_str(out, "    State(world): State<Arc<Mutex<World>>>,\n");
    push_str(out, "    Json(body): Json<serde_json::Value>,\n");
    push_str(out, ") -> Result<Json<serde_json::Value>, (StatusCode, String)> {\n");
    push_str(out, "    let json = body.to_string();\n");
    push_str(out, "    let mut guard = world\n");
    push_str(out, "        .lock()\n");
    push_str(out, "        .map_err(|e| (StatusCode::INTERNAL_SERVER_ERROR, e.to_string()))?;\n");
    push_str(out, "    let v = ");
    push_str(out, name.as_str());
    push_str(out, "_json(&json, &mut *guard)\n");
    push_str(out, "        .map_err(|e| (StatusCode::INTERNAL_SERVER_ERROR, e))?;\n");
    push_str(out, "    Ok(Json(v))\n");
    push_str(out, "}\n\n");
    proof {
        assert(out@ =~= start + axum_fn_text(route@));
    }
}

/// Appends the handler functions of one route.
fn emit_handler_fns(out: &mut String, route: &ResolvedRoute)
    ensures
        final(out)@ == old(out)@ + handler_fn_text(route@),
{
    let ghost start = out@;
    let name = route_to_handler_ident(route.route_path.as_str());
    emit_json_fn_head(out, route, &name);
    emit_json_fn_body(out, route);
    emit_axum_fn(out, route, &name);
    proof {
        assert(out@ =~= start + handler_fn_text(route@));
    }
}

fn emit_header(out: &mut String, manifest: &ProtocolManifest)
    ensures
        final(out)@ == old(out)@ + routes_header(manifest@),
{
    let ghost start = out@;
    push_str(out, "// Auto-generated by Galeon Engine \u{2014} do not edit.\n");
    push_str(out, "// Protocol: ");
    push_str(out, manifest.protocol_version.as_str());
    push_str(out, "\n\n");
    push_str(out, "use axum::extract::State;\n");
    push_str(out, "use axum::http::StatusCode;\n");
    push_str(out, "use axum::{Json, Router, routing};\n");
    push_str(out, "use galeon_engine::World;\n");
    push_str(out, "use std::sync::{Arc, Mutex};\n");
    push_str(out, "\n");
    proof {
        assert(out@ =~= start + routes_header(manifest@));
    }
}

/// The first surface with the identifier of the surface at `n`, if it comes
/// before `n`.
fn earlier_surface_with_ident(idents: &Vec<String>, n: usize) -> (f: usize)
    requires
        n < idents@.len(),
    ensures
        f <= n,
        forall|j: int| 0 <= j < f ==> idents@[j]@ != idents@[n as int]@,
        idents@[f as int]@ == idents@[n as int]@,
{
    let mut f: usize = 0;
    while f < n && !(idents[f] == idents[n])
        invariant
            f <= n < idents@.len(),
            forall|j: int| 0 <= j < f ==> idents@[j]@ != idents@[n as int]@,
        decreases n - f,
    {
        f = f + 1;
    }
    f
}

proof fn lemma_first_surface_with_ident(ss: Seq<Seq<char>>, ident: Seq<char>, f: int)
    requires
        0 <= f < ss.len(),
        rust_ident(ss[f]) == ident,
        forall|j: int| 0 <= j < f ==> rust_ident(ss[j]) != ident,
    ensures
        first_surface_with_ident(ss, ident, 0) == f,
{
    assert forall|i: int| 0 <= i <= f implies first_surface_with_ident(ss, ident, i) == f by {
        lemma_first_surface_from(ss, ident, i, f);
    }
}

proof fn lemma_first_surface_from(ss: Seq<Seq<char>>, ident: Seq<char>, i: int, f: int)
    requires
        0 <= i <= f < ss.len(),
        rust_ident(ss[f]) == ident,
        forall|j: int| 0 <= j < f ==> rust_ident(ss[j]) != ident,
    ensures
        first_surface_with_ident(ss, ident, i) == f,
    decreases f - i,
{
    if i < f {
        lemma_first_surface_from(ss, ident, i + 1, f);
    }
}

/// Generates the `routes.rs` glue that mounts the resolved routes on axum
/// routers over `Arc<Mutex<World>>` state.
///
/// Every route is a POST that takes a JSON body and runs its handler. A
/// manifest that serves one surface gets a plain `router()`; one that serves
/// several gets a `<surface>_router()` per surface, the surface made into an
/// identifier, and it is an error when two surfaces give the same identifier.
/// Each handler identifier gets its functions once.
pub fn generate_axum_routes(routes: &[ResolvedRoute], manifest: &ProtocolManifest) -> (r: Result<
    String,
    String,
>)
    ensures
        match r {
            Ok(s) => generated_routes(resolved_views(routes@), manifest@) == Ok::<
                Seq<char>,
                Seq<char>,
            >(s@),
            Err(e) => generated_routes(resolved_views(routes@), manifest@) == Err::<
                Seq<char>,
                Seq<char>,
            >(e@),
        },
{
    let ghost rv = resolved_views(routes@);
    let mut out = String::new();
    emit_header(&mut out, manifest);
    let ghost after_header = out@;
    let surface_names = manifest.resolved_surface_names();
    let ghost ss = texts(surface_names@);
    if surface_names.len() == 1 {
        emit_router_fn(&mut out, "router", routes, None);
        proof {
            reveal_strlit("router");
        }
    } else {
        let mut idents: Vec<String> = Vec::new();
        let mut t: usize = 0;
        while t < surface_names.len()
            invariant
                t <= surface_names.len(),
                ss == texts(surface_names@),
                idents@.len() == t,
                forall|j: int| 0 <= j < t ==> #[trigger] idents@[j]@ == rust_ident(ss[j]),
            decreases surface_names.len() - t,
        {
            idents.push(to_rust_ident(surface_names[t].as_str()));
            t = t + 1;
        }
        let mut n: usize = 0;
        while n < surface_names.len()
            invariant
                n <= surface_names.len(),
                ss == texts(surface_names@),
                ss == resolved_surfaces(manifest@),
                idents@.len() == ss.len(),
                forall|j: int| 0 <= j < ss.len() ==> #[trigger] idents@[j]@ == rust_ident(ss[j]),
                first_surface_collision(ss, 0) == first_surface_collision(ss, n as int),
            decreases surface_names.len() - n,
        {
            let f = earlier_surface_with_ident(&idents, n);
            proof {
                assert(idents@[n as int]@ == rust_ident(ss[n as int]));
                assert(idents@[f as int]@ == rust_ident(ss[f as int]));
                assert forall|j: int| 0 <= j < f implies rust_ident(ss[j]) != rust_ident(
                    ss[n as int],
                ) by {
                    assert(idents@[j]@ == rust_ident(ss[j]));
                }
                lemma_first_surface_with_ident(ss, rust_ident(ss[n as int]), f as int);
            }
            if f < n {
                let mut msg = String::new();
                push_str(&mut msg, "surfaces '");
                push_str(&mut msg, surface_names[f].as_str());
                push_str(&mut msg, "' and '");
                push_str(&mut msg, surface_names[n].as_str());
                push_str(&mut msg, "' both sanitise to identifier '");
                push_str(&mut msg, idents[n].as_str());
                push_str(&mut msg, "' \u{2014} rename one to avoid collision");
                proof {
                    assert(first_surface_collision(ss, n as int) == n);
                    assert(msg@ =~= surface_collision_message(
                        ss[f as int],
                        ss[n as int],
                        rust_ident(ss[n as int]),
                    ));
                }
                return Err(msg);
            }
            n = n + 1;
        }
        let ghost head = out@;
        let mut k: usize = 0;
        while k < surface_names.len()
            invariant
                k <= surface_names.len(),
                ss == texts(surface_names@),
                rv == resolved_views(routes@),
                idents@.len() == ss.len(),
                forall|j: int| 0 <= j < ss.len() ==> #[trigger] idents@[j]@ == rust_ident(ss[j]),
                out@ == head + surface_routers(ss.take(k as int), rv, manifest.default_surface@),
            decreases surface_names.len() - k,
        {
            let mut fn_name = idents[k].clone();
            push_str(&mut fn_name, "_router");
            emit_router_fn(
                &mut out,
                fn_name.as_str(),
                routes,
                Some((&surface_names[k], &manifest.default_surface)),
            );
            proof {
                assert(ss.take(k + 1 as int).drop_last() =~= ss.take(k as int));
                assert(ss.take(k + 1 as int).last() == ss[k as int]);
            }
            k = k + 1;
        }
        proof {
            assert(ss.take(surface_names.len() as int) =~= ss);
        }
    }
    let ghost before_handlers = out@;
    let mut idents: Vec<String> = Vec::new();
    let mut t: usize = 0;
    while t < routes.len()
        invariant
            t <= routes.len(),
            rv == resolved_views(routes@),
            idents@.len() == t,
            forall|j: int| 0 <= j < t ==> #[trigger] idents@[j]@ == handler_ident(rv[j].route_path),
        decreases routes.len() - t,
    {
        idents.push(route_to_handler_ident(routes[t].route_path.as_str()));
        t = t + 1;
    }
    let mut n: usize = 0;
    while n < routes.len()
        invariant
            n <= routes.len(),
            rv == resolved_views(routes@),
            idents@.len() == rv.len(),
            forall|j: int|
                0 <= j < rv.len() ==> #[trigger] idents@[j]@ == handler_ident(rv[j].route_path),
            out@ == before_handlers + handler_fns(rv, n as int),
        decreases routes.len() - n,
    {
        let ghost ident = idents@[n as int]@;
        let mut f: usize = 0;
        while f < n && !(idents[f] == idents[n])
            invariant
                f <= n < idents@.len(),
                idents@.len() == rv.len(),
                ident == idents@[n as int]@,
                forall|j: int|
                    0 <= j < rv.len() ==> #[trigger] idents@[j]@ == handler_ident(rv[j].route_path),
                first_with_ident(rv, ident, 0) == first_with_ident(rv, ident, f as int),
            decreases n - f,
        {
            f = f + 1;
        }
        proof {
            if f < n {
                assert(first_with_ident(rv, ident, f as int) == f);
            } else {
                assert(handler_ident(rv[n as int].route_path) == ident);
                assert(first_with_ident(rv, ident, n as int) == n);
            }
        }
        if f == n {
            emit_handler_fns(&mut out, &routes[n]);
        }
        n = n + 1;
    }
    Ok(out)
}

proof fn lemma_first_with_ident_at_most(rs: Seq<ResolvedView>, ident: Seq<char>, i: int, k: int)
    requires
        0 <= i <= k < rs.len(),
        handler_ident(rs[k].route_path) == ident,
    ensures
        i <= first_with_ident(rs, ident, i) <= k,
        handler_ident(rs[first_with_ident(rs, ident, i)].route_path) == ident,
    decreases k - i,
{
    if handler_ident(rs[i].route_path) != ident {
        lemma_first_with_ident_at_most(rs, ident, i + 1, k);
    }
}

proof fn lemma_no_collision_errors(rs: Seq<ResolvedView>, n: int)
    requires
        0 <= n <= rs.len(),
        collision_errors(rs, n).len() == 0,
    ensures
        forall|i: int, j: int|
            0 <= i < j < n ==> handler_ident(#[trigger] rs[i].route_path) != handler_ident(
                #[trigger] rs[j].route_path,
            ),
    decreases n,
{
    if n > 0 {
        let prev = collision_errors(rs, n - 1);
        let ident = handler_ident(rs[n - 1].route_path);
        let f = first_with_ident(rs, ident, 0);
        if f < n - 1 {
            assert(collision_errors(rs, n).len() == prev.len() + 1);
        }
        lemma_no_collision_errors(rs, n - 1);
        assert forall|i: int| 0 <= i < n - 1 implies handler_ident(#[trigger] rs[i].route_path)
            != handler_ident(rs[n - 1].route_path) by {
            if handler_ident(rs[i].route_path) == ident {
                lemma_first_with_ident_at_most(rs, ident, 0, i);
            }
        }
    }
}

/// When resolution succeeds, no two resolved routes share a handler
/// identifier, and every route resolves to the one handler that serves its
/// module suffix.
pub proof fn lemma_resolved_routes_distinct(
    rs: Seq<RouteView>,
    hs: Seq<HandlerView>,
    m: ManifestView,
)
    requires
        resolve_result(rs, hs, m) is Ok,
    ensures
        ({
            let ok = resolve_result(rs, hs, m)->Ok_0;
            &&& forall|i: int, j: int|
                0 <= i < j < ok.len() ==> handler_ident(#[trigger] ok[i].route_path)
                    != handler_ident(#[trigger] ok[j].route_path)
            &&& ok.len() == rs.len()
        }),
{
    let pass = resolution_pass(rs, hs, m);
    assert(pass.1.len() == 0);
    assert(collision_errors(pass.0, pass.0.len() as int) =~= Seq::empty());
    lemma_no_collision_errors(pass.0, pass.0.len() as int);
    lemma_pass_lengths(rs, hs, m);
}

proof fn lemma_pass_lengths(rs: Seq<RouteView>, hs: Seq<HandlerView>, m: ManifestView)
    ensures
        resolution_pass(rs, hs, m).0.len() + resolution_pass(rs, hs, m).1.len() == rs.len(),
    decreases rs.len(),
{
    if rs.len() > 0 {
        lemma_pass_lengths(rs.drop_last(), hs, m);
    }
}

proof fn lemma_first_surface_at_most(ss: Seq<Seq<char>>, ident: Seq<char>, i: int, k: int)
    requires
        0 <= i <= k < ss.len(),
        rust_ident(ss[k]) == ident,
    ensures
        i <= first_surface_with_ident(ss, ident, i) <= k,
    decreases k - i,
{
    if rust_ident(ss[i]) != ident {
        lemma_first_surface_at_most(ss, ident, i + 1, k);
    }
}

proof fn lemma_no_surface_collision(ss: Seq<Seq<char>>, n: int)
    requires
        0 <= n <= ss.len(),
        first_surface_collision(ss, n) == -1,
    ensures
        forall|i: int, j: int|
            0 <= i < j && n <= j < ss.len() ==> rust_ident(#[trigger] ss[i]) != rust_ident(
                #[trigger] ss[j],
            ),
    decreases ss.len() - n,
{
    if n < ss.len() {
        lemma_no_surface_collision(ss, n + 1);
        assert forall|i: int| 0 <= i < n implies rust_ident(#[trigger] ss[i]) != rust_ident(
            ss[n],
        ) by {
            if rust_ident(ss[i]) == rust_ident(ss[n]) {
                lemma_first_surface_at_most(ss, rust_ident(ss[n]), 0, i);
            }
        }
    }
}

/// When generation succeeds for a manifest that serves several surfaces, the
/// router names of any two surfaces differ.
pub proof fn lemma_generated_router_names_distinct(rs: Seq<ResolvedView>, m: ManifestView)
    requires
        generated_routes(rs, m) is Ok,
        resolved_surfaces(m).len() != 1,
    ensures
        forall|i: int, j: int|
            0 <= i < j < resolved_surfaces(m).len() ==> rust_ident(
                #[trigger] resolved_surfaces(m)[i],
            ) != rust_ident(#[trigger] resolved_surfaces(m)[j]),
{
    lemma_surface_collision_range(resolved_surfaces(m), 0);
    lemma_no_surface_collision(resolved_surfaces(m), 0);
}

proof fn lemma_surface_collision_range(ss: Seq<Seq<char>>, n: int)
    requires
        0 <= n,
    ensures
        first_surface_collision(ss, n) == -1 || first_surface_collision(ss, n) >= n,
    decreases ss.len() - n,
{
    if n < ss.len() && first_surface_with_ident(ss, rust_ident(ss[n]), 0) >= n {
        lemma_surface_collision_range(ss, n + 1);
    }
}

} // verus!
