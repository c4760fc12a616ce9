use crate::protocol::ProtocolKind;
use crate::text::{chars_le, chars_of, lemma_lex_total, lemma_lex_trans, lex_le, string_of};
use vstd::prelude::*;

verus! {

/// A field descriptor baked into the binary at registration time.
pub struct FieldEntry {
    /// Field name.
    pub name: &'static str,
    /// Type path as written (e.g. `"u64"`, `"Vec<ShipView>"`).
    pub ty: &'static str,
}

/// A registered protocol item with its metadata and field information.
pub struct ProtocolRegistration {
    /// Stable protocol name.
    pub name: &'static str,
    /// Protocol kind.
    pub kind: ProtocolKind,
    /// Fields of the struct (empty for unit structs).
    pub fields: &'static [FieldEntry],
    /// First line of the doc comment, if any.
    pub doc: &'static str,
    /// Explicit surface memberships (empty: the default surface only).
    pub surfaces: &'static [&'static str],
}

/// A registered request handler.
pub struct HandlerRegistration {
    /// Handler function name.
    pub name: &'static str,
    /// Module path of the handler's definition site.
    pub module_name: &'static str,
    /// Request type as written at the handler site.
    pub request_type: &'static str,
    /// Response type as written at the handler site.
    pub response_type: &'static str,
    /// Error type as written at the handler site.
    pub error_type: &'static str,
}

/// A field within a manifest entry.
#[derive(Debug, Clone, PartialEq, Eq)]
pub struct ManifestField {
    /// Field name.
    pub name: String,
    /// Type path as a string.
    pub ty: String,
}

/// A single entry in the manifest for a protocol item.
#[derive(Debug, Clone, PartialEq, Eq)]
pub struct ManifestEntry {
    /// Stable protocol name.
    pub name: String,
    /// Protocol kind.
    pub kind: ProtocolKind,
    /// Struct fields (name and type string).
    pub fields: Vec<ManifestField>,
    /// First line of the doc comment.
    pub doc: String,
    /// Explicit surface memberships; empty means the default surface only.
    pub surfaces: Vec<String>,
}

/// The complete protocol manifest of a project.
#[derive(Debug, Clone, PartialEq, Eq)]
pub struct ProtocolManifest {
    /// Schema version of the manifest format itself.
    pub manifest_version: String,
    /// The project's protocol version (e.g. `"moonbarons-protocol@0.1"`).
    pub protocol_version: String,
    /// The surface of entries that name none.
    pub default_surface: String,
    /// The declared surfaces.
    pub surfaces: Vec<String>,
    /// Command entries.
    pub commands: Vec<ManifestEntry>,
    /// Query entries.
    pub queries: Vec<ManifestEntry>,
    /// Event entries.
    pub events: Vec<ManifestEntry>,
    /// DTO entries.
    pub dtos: Vec<ManifestEntry>,
}

/// The text of each string in `v`.
pub open spec fn texts(v: Seq<String>) -> Seq<Seq<char>> {
    v.map_values(|s: String| s@)
}

/// What a manifest entry holds.
pub struct EntryView {
    pub name: Seq<char>,
    pub kind: ProtocolKind,
    pub fields: Seq<(Seq<char>, Seq<char>)>,
    pub doc: Seq<char>,
    pub surfaces: Seq<Seq<char>>,
}

impl View for ManifestEntry {
    type V = EntryView;

    open spec fn view(&self) -> EntryView {
        EntryView {
            name: self.name@,
            kind: self.kind,
            fields: self.fields@.map_values(|f: ManifestField| (f.name@, f.ty@)),
            doc: self.doc@,
            surfaces: texts(self.surfaces@),
        }
    }
}

/// The views of a list of entries.
pub open spec fn entry_views(v: Seq<ManifestEntry>) -> Seq<EntryView> {
    v.map_values(|e: ManifestEntry| e@)
}

/// What a protocol manifest holds.
pub struct ManifestView {
    pub manifest_version: Seq<char>,
    pub protocol_version: Seq<char>,
    pub default_surface: Seq<char>,
    pub surfaces: Seq<Seq<char>>,
    pub commands: Seq<EntryView>,
    pub queries: Seq<EntryView>,
    pub events: Seq<EntryView>,
    pub dtos: Seq<EntryView>,
}

impl View for ProtocolManifest {
    type V = ManifestView;

    open spec fn view(&self) -> ManifestView {
        ManifestView {
            manifest_version: self.manifest_version@,
            protocol_version: self.protocol_version@,
            default_surface: self.default_surface@,
            surfaces: texts(self.surfaces@),
            commands: entry_views(self.commands@),
            queries: entry_views(self.queries@),
            events: entry_views(self.events@),
            dtos: entry_views(self.dtos@),
        }
    }
}

/// The surfaces a manifest serves: the declared ones, or the default surface
/// alone where none is declared.
pub open spec fn resolved_surfaces(m: ManifestView) -> Seq<Seq<char>> {
    if m.surfaces.len() == 0 {
        seq![m.default_surface]
    } else {
        m.surfaces
    }
}

/// A copy of each string in `v`.
pub fn clone_strings(v: &Vec<String>) -> (r: Vec<String>)
    ensures
        texts(r@) == texts(v@),
{
    let mut r: Vec<String> = Vec::new();
    let mut i: usize = 0;
    while i < v.len()
        invariant
            i <= v.len(),
            r@.len() == i,
            forall|k: int| 0 <= k < i ==> r@[k]@ == v@[k]@,
        decreases v.len() - i,
    {
        r.push(v[i].clone());
        i = i + 1;
    }
    proof {
        assert(texts(r@) =~= texts(v@));
    }
    r
}

impl ProtocolManifest {
    /// Current manifest schema version.
    pub const MANIFEST_VERSION: &'static str = "1";

    /// The surfaces this manifest serves: the declared surfaces, or the
    /// default surface alone when none is declared.
    pub fn resolved_surface_names(&self) -> (r: Vec<String>)
        ensures
            texts(r@) == resolved_surfaces(self@),
    {
        if self.surfaces.len() == 0 {
            let mut r: Vec<String> = Vec::new();
            r.push(self.default_surface.clone());
            proof {
                assert(texts(r@) =~= resolved_surfaces(self@));
            }
            r
        } else {
            clone_strings(&self.surfaces)
        }
    }
}

/// The manifest entry of a registration.
pub open spec fn registration_entry(r: ProtocolRegistration) -> EntryView {
    EntryView {
        name: r.name@,
        kind: r.kind,
        fields: r.fields@.map_values(|f: FieldEntry| (f.name@, f.ty@)),
        doc: r.doc@,
        surfaces: r.surfaces@.map_values(|x: &str| x@),
    }
}

/// The first index from `i` on whose entry name comes after `key`, or the
/// length of `s`.
pub open spec fn name_index(s: Seq<EntryView>, key: Seq<char>, i: int) -> int
    decreases s.len() - i,
{
    if i < 0 || i >= s.len() || !lex_le(s[i].name, key) {
        i
    } else {
        name_index(s, key, i + 1)
    }
}

/// `e` inserted into `s` after every entry whose name is no later than its
/// own.
pub open spec fn insert_entry(s: Seq<EntryView>, e: EntryView) -> Seq<EntryView> {
    s.insert(name_index(s, e.name, 0), e)
}

/// The entries of the registrations of `kind`, ordered by name; entries
/// with the same name keep their registration order.
pub open spec fn collected(regs: Seq<ProtocolRegistration>, kind: ProtocolKind) -> Seq<EntryView>
    decreases regs.len(),
{
    if regs.len() == 0 {
        Seq::empty()
    } else {
        let prev = collected(regs.drop_last(), kind);
        if regs.last().kind == kind {
            insert_entry(prev, registration_entry(regs.last()))
        } else {
            prev
        }
    }
}

/// The entries of the registrations of `kind`, in registration order.
pub open spec fn registered_in_order(regs: Seq<ProtocolRegistration>, kind: ProtocolKind) -> Seq<EntryView>
    decreases regs.len(),
{
    if regs.len() == 0 {
        Seq::empty()
    } else {
        let prev = registered_in_order(regs.drop_last(), kind);
        if regs.last().kind == kind {
            prev.push(registration_entry(regs.last()))
        } else {
            prev
        }
    }
}

/// Names never decrease along `s`.
pub open spec fn sorted_by_name(s: Seq<EntryView>) -> bool {
    forall|a: int, b: int| 0 <= a < b < s.len() ==> lex_le(s[a].name, s[b].name)
}

proof fn lemma_name_index(s: Seq<EntryView>, key: Seq<char>, i: int)
    requires
        0 <= i <= s.len(),
    ensures
        i <= name_index(s, key, i) <= s.len(),
        forall|k: int| i <= k < name_index(s, key, i) ==> lex_le(s[k].name, key),
        name_index(s, key, i) < s.len() ==> !lex_le(s[name_index(s, key, i)].name, key),
    decreases s.len() - i,
{
    if i < s.len() && lex_le(s[i].name, key) {
        lemma_name_index(s, key, i + 1);
    }
}

proof fn lemma_insert_entry_sorted(s: Seq<EntryView>, e: EntryView)
    requires
        sorted_by_name(s),
    ensures
        sorted_by_name(insert_entry(s, e)),
{
    let idx = name_index(s, e.name, 0);
    lemma_name_index(s, e.name, 0);
    let t = insert_entry(s, e);
    assert forall|k: int| idx <= k < s.len() implies lex_le(e.name, s[k].name) by {
        lemma_lex_total(s[idx].name, e.name);
        if k > idx {
            lemma_lex_trans(e.name, s[idx].name, s[k].name);
        }
    }
    assert forall|a: int, b: int| 0 <= a < b < t.len() implies lex_le(t[a].name, t[b].name) by {
        if b < idx {
        } else if b == idx {
        } else if a < idx {
            lemma_lex_trans(s[a].name, e.name, s[b - 1].name);
        } else if a == idx {
        } else {
        }
    }
}

/// Each group of a collected manifest is ordered by name.
pub proof fn lemma_collected_sorted(regs: Seq<ProtocolRegistration>, kind: ProtocolKind)
    ensures
        sorted_by_name(collected(regs, kind)),
    decreases regs.len(),
{
    if regs.len() > 0 {
        lemma_collected_sorted(regs.drop_last(), kind);
        if regs.last().kind == kind {
            lemma_insert_entry_sorted(collected(regs.drop_last(), kind), registration_entry(regs.last()));
        }
    }
}

/// A collected group holds exactly the entries of the registrations of its
/// kind, each as often as it was registered: only the order differs.
pub proof fn lemma_collected_members(regs: Seq<ProtocolRegistration>, kind: ProtocolKind)
    ensures
        collected(regs, kind).to_multiset() == registered_in_order(regs, kind).to_multiset(),
    decreases regs.len(),
{
    if regs.len() > 0 {
        lemma_collected_members(regs.drop_last(), kind);
        if regs.last().kind == kind {
            let prev = collected(regs.drop_last(), kind);
            let e = registration_entry(regs.last());
            lemma_name_index(prev, e.name, 0);
            vstd::seq_lib::to_multiset_insert(prev, name_index(prev, e.name, 0), e);
            vstd::seq_lib::to_multiset_build(registered_in_order(regs.drop_last(), kind), e);
        }
    }
}

/// The manifest entry of one registration.
fn entry_of(reg: &ProtocolRegistration) -> (e: ManifestEntry)
    ensures
        e@ == registration_entry(*reg),
{
    let name_chars = chars_of(reg.name);
    let doc_chars = chars_of(reg.doc);
    let mut fields: Vec<ManifestField> = Vec::new();
    let mut i: usize = 0;
    while i < reg.fields.len()
        invariant
            i <= reg.fields@.len(),
            fields@.len() == i,
            forall|k: int| 0 <= k < i ==> (#[trigger] fields@[k]).name@ == reg.fields@[k].name@ && fields@[k].ty@ == reg.fields@[k].ty@,
        decreases reg.fields@.len() - i,
    {
        let n = chars_of(reg.fields[i].name);
        let t = chars_of(reg.fields[i].ty);
        fields.push(ManifestField { name: string_of(&n), ty: string_of(&t) });
        i = i + 1;
    }
    let mut surfaces: Vec<String> = Vec::new();
    let mut j: usize = 0;
    while j < reg.surfaces.len()
        invariant
            j <= reg.surfaces@.len(),
            surfaces@.len() == j,
            forall|k: int| 0 <= k < j ==> (#[trigger] surfaces@[k])@ == reg.surfaces@[k]@,
        decreases reg.surfaces@.len() - j,
    {
        let c = chars_of(reg.surfaces[j]);
        surfaces.push(string_of(&c));
        j = j + 1;
    }
    let e = ManifestEntry { name: string_of(&name_chars), kind: reg.kind, fields, doc: string_of(&doc_chars), surfaces };
    proof {
        assert(e@.fields =~= registration_entry(*reg).fields);
        assert(e@.surfaces =~= registration_entry(*reg).surfaces);
    }
    e
}

/// Insert `e` into the name-ordered `out`, after every entry whose name is
/// no later than its own; `keys` holds each entry's name as characters.
fn insert_by_name(out: &mut Vec<ManifestEntry>, keys: &mut Vec<Vec<char>>, e: ManifestEntry)
    requires
        old(keys)@.len() == old(out)@.len(),
        forall|k: int| 0 <= k < old(keys)@.len() ==> #[trigger] old(keys)@[k]@ == old(out)@[k].name@,
    ensures
        entry_views(final(out)@) == insert_entry(entry_views(old(out)@), e@),
        final(keys)@.len() == final(out)@.len(),
        forall|k: int| 0 <= k < final(keys)@.len() ==> #[trigger] final(keys)@[k]@ == final(out)@[k].name@,
{
    let key = chars_of(e.name.as_str());
    let ghost views = entry_views(out@);
    let mut j: usize = 0;
    while j < out.len() && chars_le(&keys[j], &key)
        invariant
            j <= out.len(),
            views == entry_views(out@),
            keys@.len() == out@.len(),
            forall|k: int| 0 <= k < keys@.len() ==> #[trigger] keys@[k]@ == out@[k].name@,
            name_index(views, key@, 0) == name_index(views, key@, j as int),
            key@ == e.name@,
        decreases out.len() - j,
    {
        j = j + 1;
    }
    proof {
        assert(name_index(views, key@, j as int) == j);
    }
    let ghost ev = e@;
    let ghost old_keys = keys@;
    let ghost old_out = out@;
    out.insert(j, e);
    keys.insert(j, key);
    proof {
        assert(entry_views(out@) =~= views.insert(j as int, ev));
        assert forall|k: int| 0 <= k < keys@.len() implies #[trigger] keys@[k]@ == out@[k].name@ by {
            if k < j {
                assert(keys@[k] == old_keys[k] && out@[k] == old_out[k]);
            } else if k > j {
                assert(keys@[k] == old_keys[k - 1] && out@[k] == old_out[k - 1]);
            }
        }
    }
}

impl ProtocolManifest {
    /// The manifest of the given registrations: grouped by kind, each group
    /// ordered by name (entries with the same name keep their registration
    /// order) for deterministic, diffable output. An empty
    /// `protocol_version` defaults to `crate_version`, the calling crate's
    /// version.
    pub fn from_registrations(
        protocol_version: &str,
        crate_version: &str,
        default_surface: &str,
        surfaces: &Vec<String>,
        regs: &[ProtocolRegistration],
    ) -> (m: ProtocolManifest)
        ensures
            m@.manifest_version == ProtocolManifest::MANIFEST_VERSION@,
            m@.protocol_version == if protocol_version@.len() == 0 { crate_version@ } else { protocol_version@ },
            m@.default_surface == default_surface@,
            m@.surfaces == texts(surfaces@),
            m@.commands == collected(regs@, ProtocolKind::Command),
            m@.queries == collected(regs@, ProtocolKind::Query),
            m@.events == collected(regs@, ProtocolKind::Event),
            m@.dtos == collected(regs@, ProtocolKind::Dto),
    {
        let mut commands: Vec<ManifestEntry> = Vec::new();
        let mut queries: Vec<ManifestEntry> = Vec::new();
        let mut events: Vec<ManifestEntry> = Vec::new();
        let mut dtos: Vec<ManifestEntry> = Vec::new();
        let mut ck: Vec<Vec<char>> = Vec::new();
        let mut qk: Vec<Vec<char>> = Vec::new();
        let mut ek: Vec<Vec<char>> = Vec::new();
        let mut dk: Vec<Vec<char>> = Vec::new();
        let mut i: usize = 0;
        while i < regs.len()
            invariant
                i <= regs@.len(),
                entry_views(commands@) == collected(regs@.take(i as int), ProtocolKind::Command),
                entry_views(queries@) == collected(regs@.take(i as int), ProtocolKind::Query),
                entry_views(events@) == collected(regs@.take(i as int), ProtocolKind::Event),
                entry_views(dtos@) == collected(regs@.take(i as int), ProtocolKind::Dto),
                ck@.len() == commands@.len(),
                qk@.len() == queries@.len(),
                ek@.len() == events@.len(),
                dk@.len() == dtos@.len(),
                forall|k: int| 0 <= k < ck@.len() ==> #[trigger] ck@[k]@ == commands@[k].name@,
                forall|k: int| 0 <= k < qk@.len() ==> #[trigger] qk@[k]@ == queries@[k].name@,
                forall|k: int| 0 <= k < ek@.len() ==> #[trigger] ek@[k]@ == events@[k].name@,
                forall|k: int| 0 <= k < dk@.len() ==> #[trigger] dk@[k]@ == dtos@[k].name@,
            decreases regs@.len() - i,
        {
            proof {
                assert(regs@.take(i + 1 as int).drop_last() =~= regs@.take(i as int));
                assert(regs@.take(i + 1 as int).last() == regs@[i as int]);
            }
            let e = entry_of(&regs[i]);
            match regs[i].kind {
                ProtocolKind::Command => insert_by_name(&mut commands, &mut ck, e),
                ProtocolKind::Query => insert_by_name(&mut queries, &mut qk, e),
                ProtocolKind::Event => insert_by_name(&mut events, &mut ek, e),
                ProtocolKind::Dto => insert_by_name(&mut dtos, &mut dk, e),
            }
            i = i + 1;
        }
        proof {
            assert(regs@.take(regs@.len() as int) =~= regs@);
        }
        let mv = chars_of(ProtocolManifest::MANIFEST_VERSION);
        let given = chars_of(protocol_version);
        let pv = if given.len() == 0 {
            chars_of(crate_version)
        } else {
            given
        };
        let ds = chars_of(default_surface);
        ProtocolManifest {
            manifest_version: string_of(&mv),
            protocol_version: string_of(&pv),
            default_surface: string_of(&ds),
            surfaces: clone_strings(surfaces),
            commands,
            queries,
            events,
            dtos,
        }
    }
}

} // verus!
