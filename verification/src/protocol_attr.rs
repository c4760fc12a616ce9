use crate::manifest::{texts, ManifestEntry, ManifestField};
use crate::protocol::ProtocolKind;
use crate::text::{chars_le, chars_of, lemma_lex_antisym, lemma_lex_total, lemma_lex_trans, lex_le};
use vstd::prelude::*;

verus! {

// ===========================================================================
// Protocol attribute arguments: `surface = "..."` or `surfaces = [..]`
// ===========================================================================

/// An element of an array argument.
pub enum ArgElem {
    /// A string literal.
    Str(String),
    /// Any other expression.
    Other,
}

/// The value of a `name = value` argument.
pub enum ArgValue {
    /// A string literal.
    Str(String),
    /// An array expression.
    Array(Vec<ArgElem>),
    /// Any other expression.
    Other,
}

/// One `name = value` argument of a protocol attribute.
pub struct SurfaceArg {
    /// The argument's name (its path as written).
    pub name: String,
    /// The argument's value.
    pub value: ArgValue,
}

/// The message for an attribute that names both forms.
pub open spec fn both_forms_message() -> Seq<char> {
    "use either `surface = \"...\"` or `surfaces = [..]`, not both"@
}

/// What has been read of the arguments so far: the surfaces in order, and
/// whether `surface` and `surfaces` were seen.
pub struct ArgState {
    pub surfaces: Seq<Seq<char>>,
    pub saw_surface: bool,
    pub saw_surfaces: bool,
}

/// The surfaces of array elements `es`, in order, or the message of the
/// first element that is not a non-empty string literal.
pub open spec fn array_surfaces(es: Seq<ArgElem>) -> Result<Seq<Seq<char>>, Seq<char>>
    decreases es.len(),
{
    if es.len() == 0 {
        Ok(Seq::empty())
    } else {
        match array_surfaces(es.drop_last()) {
            Err(m) => Err(m),
            Ok(prev) => match es.last() {
                ArgElem::Str(s) => if s@.len() == 0 {
                    Err("surface name must not be empty"@)
                } else {
                    Ok(prev.push(s@))
                },
                ArgElem::Other => Err("`surfaces` must be an array of string literals"@),
            },
        }
    }
}

/// Reading one more argument.
pub open spec fn read_arg(st: ArgState, arg: SurfaceArg) -> Result<ArgState, Seq<char>> {
    if arg.name@ == "surface"@ {
        if st.saw_surfaces {
            Err(both_forms_message())
        } else if st.saw_surface {
            Err("`surface` may only be specified once"@)
        } else {
            match arg.value {
                ArgValue::Str(s) => if s@.len() == 0 {
                    Err("surface name must not be empty"@)
                } else {
                    Ok(
                        ArgState {
                            surfaces: st.surfaces.push(s@),
                            saw_surface: true,
                            saw_surfaces: st.saw_surfaces,
                        },
                    )
                },
                _ => Err("`surface` must be a string literal"@),
            }
        }
    } else if arg.name@ == "surfaces"@ {
        if st.saw_surface {
            Err(both_forms_message())
        } else if st.saw_surfaces {
            Err("`surfaces` may only be specified once"@)
        } else {
            match arg.value {
                ArgValue::Array(es) => match array_surfaces(es@) {
                    Ok(ss) => Ok(
                        ArgState {
                            surfaces: st.surfaces + ss,
                            saw_surface: st.saw_surface,
                            saw_surfaces: true,
                        },
                    ),
                    Err(m) => Err(m),
                },
                _ => Err("`surfaces` must be an array of string literals"@),
            }
        }
    } else {
        Err("unsupported protocol attribute argument; expected `surface` or `surfaces`"@)
    }
}

/// Reading `args` in order from the start.
pub open spec fn read_args(args: Seq<SurfaceArg>) -> Result<ArgState, Seq<char>>
    decreases args.len(),
{
    if args.len() == 0 {
        Ok(ArgState { surfaces: Seq::empty(), saw_surface: false, saw_surfaces: false })
    } else {
        match read_args(args.drop_last()) {
            Err(m) => Err(m),
            Ok(st) => read_arg(st, args.last()),
        }
    }
}

/// Each string of `s` comes strictly before the next.
pub open spec fn strictly_sorted(s: Seq<Seq<char>>) -> bool {
    forall|i: int, j: int| 0 <= i < j < s.len() ==> lex_le(#[trigger] s[i], #[trigger] s[j]) && s[i]
        != s[j]
}

proof fn lemma_lex_refl(a: Seq<char>)
    ensures
        lex_le(a, a),
    decreases a.len(),
{
    if a.len() > 0 {
        lemma_lex_refl(a.drop_first());
    }
}

fn string_eq_literal(s: &String, lit: &str) -> (r: bool)
    ensures
        r == (s@ == lit@),
{
    let l = lit.to_owned();
    *s == l
}

/// Reads the elements of an array argument.
fn read_array(es: &Vec<ArgElem>, out: &mut Vec<String>) -> (r: Result<(), String>)
    ensures
        match array_surfaces(es@) {
            Ok(ss) => r is Ok && texts(final(out)@) == texts(old(out)@) + ss,
            Err(m) => match r {
                Err(e) => e@ == m,
                Ok(_) => false,
            },
        },
{
    let ghost start = texts(out@);
    let mut i: usize = 0;
    while i < es.len()
        invariant
            i <= es.len(),
            array_surfaces(es@.take(i as int)) is Ok,
            texts(out@) == start + array_surfaces(es@.take(i as int))->Ok_0,
        decreases es.len() - i,
    {
        proof {
            assert(es@.take(i + 1 as int).drop_last() =~= es@.take(i as int));
            assert(es@.take(i + 1 as int).last() == es@[i as int]);
        }
        match &es[i] {
            ArgElem::Str(s) => {
                if s.as_str().is_empty() {
                    proof {
                        lemma_array_error_sticks(es@, i as int + 1);
                    }
                    return Err("surface name must not be empty".to_owned());
                }
                let ghost before = out@;
                out.push(s.clone());
                proof {
                    assert(texts(out@) =~= texts(before).push(s@));
                }
            },
            ArgElem::Other => {
                proof {
                    lemma_array_error_sticks(es@, i as int + 1);
                }
                return Err("`surfaces` must be an array of string literals".to_owned());
            },
        }
        i = i + 1;
    }
    proof {
        assert(es@.take(es.len() as int) =~= es@);
    }
    Ok(())
}

proof fn lemma_array_error_sticks(es: Seq<ArgElem>, n: int)
    requires
        0 < n <= es.len(),
        array_surfaces(es.take(n)) is Err,
    ensures
        array_surfaces(es) == array_surfaces(es.take(n)),
    decreases es.len() - n,
{
    if n < es.len() {
        assert(es.take(n + 1).drop_last() =~= es.take(n));
        lemma_array_error_sticks(es, n + 1);
    } else {
        assert(es.take(n) =~= es);
    }
}

proof fn lemma_args_error_sticks(args: Seq<SurfaceArg>, n: int)
    requires
        0 < n <= args.len(),
        read_args(args.take(n)) is Err,
    ensures
        read_args(args) == read_args(args.take(n)),
    decreases args.len() - n,
{
    if n < args.len() {
        assert(args.take(n + 1).drop_last() =~= args.take(n));
        lemma_args_error_sticks(args, n + 1);
    } else {
        assert(args.take(n) =~= args);
    }
}

/// Reads the surfaces of a protocol attribute's arguments: either one
/// `surface = "..."` or one `surfaces = ["...", ..]`, every name a non-empty
/// string literal. The surfaces come back sorted, each once.
pub fn parse_surfaces(args: &[SurfaceArg]) -> (r: Result<Vec<String>, String>)
    ensures
        match read_args(args@) {
            Ok(st) => match r {
                Ok(v) => strictly_sorted(texts(v@)) && texts(v@).to_set() == st.surfaces.to_set(),
                Err(_) => false,
            },
            Err(m) => match r {
                Err(e) => e@ == m,
                Ok(_) => false,
            },
        },
{
    let mut surfaces: Vec<String> = Vec::new();
    let mut saw_surface = false;
    let mut saw_surfaces = false;
    let mut i: usize = 0;
    proof {
        assert(args@.take(0) =~= Seq::<SurfaceArg>::empty());
        assert(texts(surfaces@) =~= Seq::<Seq<char>>::empty());
    }
    while i < args.len()
        invariant
            i <= args.len(),
            read_args(args@.take(i as int)) == Ok::<ArgState, Seq<char>>(
                ArgState { surfaces: texts(surfaces@), saw_surface, saw_surfaces },
            ),
        decreases args.len() - i,
    {
        proof {
            assert(args@.take(i + 1 as int).drop_last() =~= args@.take(i as int));
            assert(args@.take(i + 1 as int).last() == args@[i as int]);
        }
        let arg = &args[i];
        if string_eq_literal(&arg.name, "surface") {
            if saw_surfaces {
                proof {
                    lemma_args_error_sticks(args@, i + 1);
                }
                return Err("use either `surface = \"...\"` or `surfaces = [..]`, not both".to_owned());
            }
            if saw_surface {
                proof {
                    lemma_args_error_sticks(args@, i + 1);
                }
                return Err("`surface` may only be specified once".to_owned());
            }
            match &arg.value {
                ArgValue::Str(s) => {
                    if s.as_str().is_empty() {
                        proof {
                            lemma_args_error_sticks(args@, i + 1);
                        }
                        return Err("surface name must not be empty".to_owned());
                    }
                    let ghost before = surfaces@;
                    surfaces.push(s.clone());
                    saw_surface = true;
                    proof {
                        assert(texts(surfaces@) =~= texts(before).push(s@));
                    }
                },
                _ => {
                    proof {
                        lemma_args_error_sticks(args@, i + 1);
                    }
                    return Err("`surface` must be a string literal".to_owned());
                },
            }
        } else if string_eq_literal(&arg.name, "surfaces") {
            if saw_surface {
                proof {
                    lemma_args_error_sticks(args@, i + 1);
                }
                return Err("use either `surface = \"...\"` or `surfaces = [..]`, not both".to_owned());
            }
            if saw_surfaces {
                proof {
                    lemma_args_error_sticks(args@, i + 1);
                }
                return Err("`surfaces` may only be specified once".to_owned());
            }
            match &arg.value {
                ArgValue::Array(es) => {
                    match read_array(es, &mut surfaces) {
                        Ok(()) => {},
                        Err(e) => {
                            proof {
                                lemma_args_error_sticks(args@, i + 1);
                            }
                            return Err(e);
                        },
                    }
                    saw_surfaces = true;
                },
                _ => {
                    proof {
                        lemma_args_error_sticks(args@, i + 1);
                    }
                    return Err("`surfaces` must be an array of string literals".to_owned());
                },
            }
        } else {
            proof {
                lemma_args_error_sticks(args@, i + 1);
            }
            return Err(
                "unsupported protocol attribute argument; expected `surface` or `surfaces`".to_owned(),
            );
        }
        i = i + 1;
    }
    proof {
        assert(args@.take(args.len() as int) =~= args@);
    }
    Ok(sorted_unique(&surfaces))
}

proof fn lemma_insert_to_set(s: Seq<Seq<char>>, j: int, x: Seq<char>)
    requires
        0 <= j <= s.len(),
    ensures
        s.insert(j, x).to_set() == s.to_set().insert(x),
{
    let t = s.insert(j, x);
    assert forall|e: Seq<char>| t.contains(e) <==> (s.contains(e) || e == x) by {
        if t.contains(e) {
            let k = choose|k: int| 0 <= k < t.len() && t[k] == e;
            if k < j {
                assert(s[k] == e);
            } else if k > j {
                assert(s[k - 1] == e);
            }
        }
        if s.contains(e) {
            let k = choose|k: int| 0 <= k < s.len() && s[k] == e;
            if k < j {
                assert(t[k] == e);
            } else {
                assert(t[k + 1] == e);
            }
        }
        if e == x {
            assert(t[j] == x);
        }
    }
    assert(t.to_set() =~= s.to_set().insert(x));
}

/// The strings of `v`, sorted, each once.
fn sorted_unique(v: &Vec<String>) -> (r: Vec<String>)
    ensures
        strictly_sorted(texts(r@)),
        texts(r@).to_set() == texts(v@).to_set(),
{
    let ghost tv = texts(v@);
    let mut out: Vec<String> = Vec::new();
    let mut keys: Vec<Vec<char>> = Vec::new();
    let mut i: usize = 0;
    proof {
        assert(texts(out@).to_set() =~= tv.take(0).to_set());
    }
    while i < v.len()
        invariant
            i <= v.len(),
            tv == texts(v@),
            keys@.len() == out@.len(),
            forall|k: int| 0 <= k < keys@.len() ==> #[trigger] keys@[k]@ == out@[k]@,
            strictly_sorted(texts(out@)),
            texts(out@).to_set() == tv.take(i as int).to_set(),
        decreases v.len() - i,
    {
        let x = chars_of(v[i].as_str());
        let ghost ov = texts(out@);
        let mut j: usize = 0;
        while j < out.len() && !chars_le(&x, &keys[j])
            invariant
                j <= out@.len(),
                keys@.len() == out@.len(),
                ov == texts(out@),
                forall|k: int| 0 <= k < keys@.len() ==> #[trigger] keys@[k]@ == out@[k]@,
                forall|k: int| 0 <= k < j ==> !lex_le(x@, #[trigger] ov[k]),
            decreases out@.len() - j,
        {
            proof {
                assert(keys@[j as int]@ == ov[j as int]);
            }
            j = j + 1;
        }
        proof {
            assert(tv.take(i + 1 as int) =~= tv.take(i as int).push(tv[i as int]));
            assert(tv[i as int] == x@);
        }
        let dup = j < out.len() && chars_le(&keys[j], &x);
        if dup {
            proof {
                assert(keys@[j as int]@ == ov[j as int]);
                lemma_lex_antisym(ov[j as int], x@);
                assert(ov.contains(x@));
                tv.take(i as int).lemma_push_to_set_commute(x@);
                assert(texts(out@).to_set() =~= tv.take(i + 1 as int).to_set());
            }
        } else {
            let ghost before_keys = keys@;
            let ghost before_out = out@;
            proof {
                if j < out.len() {
                    assert(keys@[j as int]@ == ov[j as int]);
                    if ov[j as int] == x@ {
                        lemma_lex_refl(x@);
                    }
                }
            }
            out.insert(j, v[i].clone());
            keys.insert(j, x);
            proof {
                let nv = texts(out@);
                assert(nv =~= ov.insert(j as int, x@));
                assert forall|k: int| 0 <= k < keys@.len() implies #[trigger] keys@[k]@ == out@[k]@ by {
                    if k < j {
                        assert(keys@[k] == before_keys[k] && out@[k] == before_out[k]);
                    } else if k > j {
                        assert(keys@[k] == before_keys[k - 1] && out@[k] == before_out[k - 1]);
                    }
                }
                assert forall|k: int| 0 <= k < j implies lex_le(#[trigger] ov[k], x@) && ov[k] != x@ by {
                    lemma_lex_total(x@, ov[k]);
                    if ov[k] == x@ {
                        lemma_lex_refl(x@);
                    }
                }
                assert forall|k: int| j <= k < ov.len() implies lex_le(x@, #[trigger] ov[k]) && ov[k] != x@ by {
                    if k > j {
                        lemma_lex_trans(x@, ov[j as int], ov[k]);
                        if ov[k] == x@ {
                            lemma_lex_antisym(ov[j as int], x@);
                        }
                    }
                }
                assert forall|a: int, b: int| 0 <= a < b < nv.len() implies lex_le(#[trigger] nv[a], #[trigger] nv[b]) && nv[a] != nv[b] by {
                    if b < j {
                    } else if b == j {
                    } else if a < j {
                        lemma_lex_trans(ov[a], x@, ov[b - 1]);
                        if ov[a] == ov[b - 1] {
                            lemma_lex_antisym(ov[a], x@);
                        }
                    } else if a == j {
                    } else {
                    }
                }
                lemma_insert_to_set(ov, j as int, x@);
                tv.take(i as int).lemma_push_to_set_commute(x@);
            }
        }
        i = i + 1;
    }
    proof {
        assert(tv.take(v.len() as int) =~= tv);
    }
    out
}

// ===========================================================================
// The item a protocol attribute is applied to
// ===========================================================================

/// The shape of the item a protocol attribute is applied to.
#[derive(Clone, Copy, Debug, PartialEq, Eq, Structural)]
pub enum ItemShape {
    /// A struct with named fields.
    NamedStruct,
    /// A unit struct.
    UnitStruct,
    /// A tuple struct.
    TupleStruct,
    /// An enum.
    Enum,
    /// Any other item.
    Other,
}

/// The message refusing an item of shape `shape`, if any: protocol
/// attributes apply to named and unit structs only.
pub open spec fn shape_error(shape: ItemShape) -> Option<Seq<char>> {
    match shape {
        ItemShape::TupleStruct => Some("galeon protocol macros do not support tuple structs"@),
        ItemShape::Enum => Some("galeon protocol macros do not support enums"@),
        ItemShape::Other => Some("galeon protocol macros can only be applied to structs"@),
        _ => None,
    }
}

/// Accepts named and unit structs, and refuses any other item with its message.
pub fn validate_struct(shape: ItemShape) -> (r: Result<(), String>)
    ensures
        match shape_error(shape) {
            None => r is Ok,
            Some(m) => match r {
                Err(e) => e@ == m,
                Ok(_) => false,
            },
        },
{
    match shape {
        ItemShape::TupleStruct => Err(
            "galeon protocol macros do not support tuple structs".to_owned(),
        ),
        ItemShape::Enum => Err("galeon protocol macros do not support enums".to_owned()),
        ItemShape::Other => Err("galeon protocol macros can only be applied to structs".to_owned()),
        _ => Ok(()),
    }
}

// ===========================================================================
// Type text for manifest fields
// ===========================================================================

/// `s` with every occurrence of `p` replaced by `r`, matching from the left
/// without overlaps (`p` not empty).
pub open spec fn replaced(s: Seq<char>, p: Seq<char>, r: Seq<char>) -> Seq<char>
    decreases s.len(),
{
    if p.len() == 0 || s.len() < p.len() {
        s
    } else if s.take(p.len() as int) == p {
        r + replaced(s.skip(p.len() as int), p, r)
    } else {
        seq![s[0]] + replaced(s.drop_first(), p, r)
    }
}

fn push_all(out: &mut Vec<char>, r: &Vec<char>)
    ensures
        final(out)@ == old(out)@ + r@,
{
    let ghost start = out@;
    let mut t: usize = 0;
    while t < r.len()
        invariant
            t <= r.len(),
            out@ == start + r@.take(t as int),
        decreases r.len() - t,
    {
        out.push(r[t]);
        proof {
            assert(start + r@.take(t as int) + seq![r@[t as int]] =~= start + r@.take(t + 1 as int));
        }
        t = t + 1;
    }
    proof {
        assert(r@.take(r.len() as int) =~= r@);
    }
}

/// The characters of `s` with every occurrence of `p` replaced by `r`.
fn replace_chars(s: &Vec<char>, p: &Vec<char>, r: &Vec<char>) -> (out: Vec<char>)
    requires
        p@.len() > 0,
    ensures
        out@ == replaced(s@, p@, r@),
{
    let mut out: Vec<char> = Vec::new();
    let mut i: usize = 0;
    proof {
        assert(s@.skip(0) =~= s@);
    }
    while i < s.len()
        invariant
            i <= s.len(),
            p@.len() > 0,
            out@ + replaced(s@.skip(i as int), p@, r@) == replaced(s@, p@, r@),
        decreases s.len() - i,
    {
        let ghost rest = s@.skip(i as int);
        let mut m = p.len() <= s.len() - i;
        let mut k: usize = 0;
        while m && k < p.len()
            invariant
                i < s.len(),
                p@.len() <= s@.len() - i || !m,
                k <= p.len(),
                m ==> forall|q: int| 0 <= q < k ==> s@[i + q] == p@[q],
                !m ==> (p@.len() > s@.len() - i || exists|q: int| 0 <= q < p@.len() && s@[i + q]
                    != p@[q]),
            decreases p.len() - k,
        {
            if s[i + k] != p[k] {
                m = false;
            }
            k = k + 1;
        }
        if m {
            proof {
                assert(rest.take(p@.len() as int) =~= p@);
                assert(rest.skip(p@.len() as int) =~= s@.skip(i + p@.len()));
                assert(out@ + r@ + replaced(s@.skip(i + p@.len()), p@, r@) =~= out@ + replaced(
                    rest,
                    p@,
                    r@,
                ));
            }
            let ghost before = out@;
            push_all(&mut out, r);
            proof {
                assert(out@ + replaced(s@.skip(i + p@.len()), p@, r@) =~= before + (r@ + replaced(
                    s@.skip(i + p@.len()),
                    p@,
                    r@,
                )));
            }
            i = i + p.len();
        } else {
            proof {
                if p@.len() <= rest.len() {
                    let q = choose|q: int| 0 <= q < p@.len() && s@[i + q] != p@[q];
                    assert(rest.take(p@.len() as int)[q] != p@[q]);
                }
                assert(rest.drop_first() =~= s@.skip(i + 1));
            }
            let ghost before = out@;
            out.push(s[i]);
            proof {
                assert(out@ + replaced(s@.skip(i + 1), p@, r@) =~= before + (seq![s@[i as int]]
                    + replaced(rest.drop_first(), p@, r@)));
            }
            i = i + 1;
        }
    }
    proof {
        assert(s@.skip(s.len() as int) =~= Seq::<char>::empty());
        assert(out@ + Seq::<char>::empty() =~= out@);
    }
    out
}

/// The text of a type as recorded in the manifest: the token text of the
/// type with the spaces around `<`, before `>` and `,`, and around `::` taken out.
pub open spec fn type_text(raw: Seq<char>) -> Seq<char> {
    replaced(
        replaced(
            replaced(
                replaced(replaced(replaced(raw, " < "@, "<"@), "< "@, "<"@), " >"@, ">"@),
                " ,"@,
                ","@,
            ),
            " ::"@,
            "::"@,
        ),
        ":: "@,
        "::"@,
    )
}

fn replace_step(s: Vec<char>, p: &str, r: &str) -> (out: Vec<char>)
    requires
        p@.len() > 0,
    ensures
        out@ == replaced(s@, p@, r@),
{
    let pv = chars_of(p);
    let rv = chars_of(r);
    replace_chars(&s, &pv, &rv)
}

/// The text of a type for manifest field metadata, from the token text of
/// the type (`Vec < ShipView >` gives `Vec<ShipView>`).
pub fn type_to_string(raw: &str) -> (r: String)
    ensures
        r@ == type_text(raw@),
{
    proof {
        reveal_strlit(" < ");
        reveal_strlit("< ");
        reveal_strlit(" >");
        reveal_strlit(" ,");
        reveal_strlit(" ::");
        reveal_strlit(":: ");
    }
    let v = chars_of(raw);
    let v = replace_step(v, " < ", "<");
    let v = replace_step(v, "< ", "<");
    let v = replace_step(v, " >", ">");
    let v = replace_step(v, " ,", ",");
    let v = replace_step(v, " ::", "::");
    let v = replace_step(v, ":: ", "::");
    crate::text::string_of(&v)
}

// ===========================================================================
// Doc comments
// ===========================================================================

/// An attribute of the annotated item, as far as doc extraction reads it.
pub struct ItemAttr {
    /// The attribute's path is `doc`.
    pub is_doc: bool,
    /// The string literal of a `name = "..."` attribute.
    pub text: Option<String>,
}

/// `c` is white space in the sense of `char::is_whitespace` (Unicode `White_Space`).
pub open spec fn is_white(c: char) -> bool {
    ||| ('\u{9}' <= c && c <= '\u{d}')
    ||| c == ' '
    ||| c == '\u{85}'
    ||| c == '\u{a0}'
    ||| c == '\u{1680}'
    ||| ('\u{2000}' <= c && c <= '\u{200a}')
    ||| c == '\u{2028}'
    ||| c == '\u{2029}'
    ||| c == '\u{202f}'
    ||| c == '\u{205f}'
    ||| c == '\u{3000}'
}

/// The number of white-space characters at the start of `s`.
pub open spec fn leading_white(s: Seq<char>) -> nat
    decreases s.len(),
{
    if s.len() > 0 && is_white(s[0]) {
        1 + leading_white(s.drop_first())
    } else {
        0
    }
}

/// The number of white-space characters at the end of `s`.
pub open spec fn trailing_white(s: Seq<char>) -> nat
    decreases s.len(),
{
    if s.len() > 0 && is_white(s.last()) {
        1 + trailing_white(s.drop_last())
    } else {
        0
    }
}

/// `s` without white space at either end.
pub open spec fn trimmed(s: Seq<char>) -> Seq<char> {
    if leading_white(s) >= s.len() {
        Seq::empty()
    } else {
        s.subrange(leading_white(s) as int, s.len() - trailing_white(s))
    }
}

/// The index of the first doc attribute with a string value, from `i` on, or -1.
pub open spec fn first_doc(attrs: Seq<ItemAttr>, i: int) -> int
    decreases attrs.len() - i,
{
    if i < 0 || i >= attrs.len() {
        -1
    } else if attrs[i].is_doc && attrs[i].text is Some {
        i
    } else {
        first_doc(attrs, i + 1)
    }
}

/// The doc text of an item: its first doc attribute's text, trimmed, or
/// nothing.
pub open spec fn doc_text(attrs: Seq<ItemAttr>) -> Seq<char> {
    let i = first_doc(attrs, 0);
    if i >= 0 {
        trimmed(attrs[i].text->0@)
    } else {
        Seq::empty()
    }
}

fn white(c: char) -> (r: bool)
    ensures
        r == is_white(c),
{
    ('\u{9}' <= c && c <= '\u{d}') || c == ' ' || c == '\u{85}' || c == '\u{a0}' || c == '\u{1680}'
        || ('\u{2000}' <= c && c <= '\u{200a}') || c == '\u{2028}' || c == '\u{2029}' || c
        == '\u{202f}' || c == '\u{205f}' || c == '\u{3000}'
}

proof fn lemma_leading_bound(s: Seq<char>)
    ensures
        leading_white(s) <= s.len(),
    decreases s.len(),
{
    if s.len() > 0 && is_white(s[0]) {
        lemma_leading_bound(s.drop_first());
    }
}

proof fn lemma_trailing_bound(s: Seq<char>)
    ensures
        trailing_white(s) <= s.len(),
        trailing_white(s) < s.len() ==> !is_white(s[s.len() - 1 - trailing_white(s)]),
    decreases s.len(),
{
    if s.len() > 0 && is_white(s.last()) {
        lemma_trailing_bound(s.drop_last());
        let t = trailing_white(s.drop_last());
        if t < s.len() - 1 {
            assert(s.drop_last()[s.len() - 2 - t] == s[s.len() - 2 - t]);
        }
    }
}

proof fn lemma_leading_not_all_white(s: Seq<char>)
    requires
        leading_white(s) < s.len(),
    ensures
        !is_white(s[leading_white(s) as int]),
        leading_white(s) + trailing_white(s) < s.len(),
    decreases s.len(),
{
    if is_white(s[0]) {
        lemma_leading_not_all_white(s.drop_first());
        assert(s.drop_first()[leading_white(s.drop_first()) as int] == s[leading_white(s) as int]);
        lemma_trailing_drop_first(s);
    } else {
        lemma_trailing_bound(s);
        if trailing_white(s) >= s.len() {
            lemma_trailing_all(s, 0);
        }
    }
}

proof fn lemma_trailing_all(s: Seq<char>, k: int)
    requires
        trailing_white(s) >= s.len(),
        0 <= k < s.len(),
    ensures
        is_white(s[k]),
    decreases s.len(),
{
    if k < s.len() - 1 {
        assert(s.drop_last()[k] == s[k]);
        lemma_trailing_all(s.drop_last(), k);
    }
}

proof fn lemma_trailing_drop_first(s: Seq<char>)
    requires
        s.len() > 0,
        trailing_white(s.drop_first()) < s.drop_first().len(),
    ensures
        trailing_white(s) == trailing_white(s.drop_first()),
    decreases s.len(),
{
    if s.len() > 1 && is_white(s.last()) {
        assert(s.drop_first().drop_last() =~= s.drop_last().drop_first());
        lemma_trailing_drop_first(s.drop_last());
    }
}

/// `s` without white space at either end.
fn trim_chars(s: &Vec<char>) -> (r: Vec<char>)
    ensures
        r@ == trimmed(s@),
{
    let mut a: usize = 0;
    proof {
        assert(s@.skip(0) =~= s@);
    }
    while a < s.len() && white(s[a])
        invariant
            a <= s.len(),
            leading_white(s@) == a + leading_white(s@.skip(a as int)),
        decreases s.len() - a,
    {
        proof {
            assert(s@.skip(a as int).drop_first() =~= s@.skip(a + 1));
        }
        a = a + 1;
    }
    proof {
        lemma_leading_bound(s@);
    }
    if a == s.len() {
        return Vec::new();
    }
    let mut b: usize = s.len();
    proof {
        assert(s@.take(b as int) =~= s@);
    }
    while b > a && white(s[b - 1])
        invariant
            a < b <= s.len(),
            !is_white(s@[a as int]),
            leading_white(s@) == a,
            trailing_white(s@) == (s.len() - b) + trailing_white(s@.take(b as int)),
        decreases b,
    {
        proof {
            assert(s@.take(b as int).drop_last() =~= s@.take(b - 1));
        }
        b = b - 1;
    }
    proof {
        lemma_leading_not_all_white(s@);
    }
    let mut out: Vec<char> = Vec::new();
    let mut k: usize = a;
    while k < b
        invariant
            a <= k <= b <= s.len(),
            out@ == s@.subrange(a as int, k as int),
        decreases b - k,
    {
        out.push(s[k]);
        proof {
            assert(s@.subrange(a as int, k as int).push(s@[k as int]) =~= s@.subrange(
                a as int,
                k + 1 as int,
            ));
        }
        k = k + 1;
    }
    out
}

/// The doc text of an item: the first doc attribute with a string value,
/// trimmed; empty where there is none.
pub fn extract_doc(attrs: &[ItemAttr]) -> (r: String)
    ensures
        r@ == doc_text(attrs@),
{
    let mut i: usize = 0;
    while i < attrs.len()
        invariant
            i <= attrs.len(),
            first_doc(attrs@, 0) == first_doc(attrs@, i as int),
        decreases attrs.len() - i,
    {
        if attrs[i].is_doc {
            match &attrs[i].text {
                Some(t) => {
                    let v = chars_of(t.as_str());
                    let w = trim_chars(&v);
                    return crate::text::string_of(&w);
                },
                None => {},
            }
        }
        i = i + 1;
    }
    String::new()
}

// ===========================================================================
// The entry a protocol attribute registers
// ===========================================================================

/// A named field of the annotated struct: its name and the token text of its type.
pub struct FieldTokens {
    pub name: String,
    pub ty_tokens: String,
}

/// The manifest fields of a struct of shape `shape`: one per named field,
/// with its type text; none for a unit struct.
pub open spec fn entry_fields(shape: ItemShape, fields: Seq<FieldTokens>) -> Seq<(Seq<char>, Seq<char>)> {
    if shape == ItemShape::NamedStruct {
        fields.map_values(|f: FieldTokens| (f.name@, type_text(f.ty_tokens@)))
    } else {
        Seq::empty()
    }
}

/// The manifest entry a protocol attribute registers for a struct named
/// `name` of kind `kind`: refused with the message of the item's shape, else
/// with the message of its arguments; otherwise the fields with their type
/// text, the doc text, and the surfaces sorted, each once.
pub fn protocol_entry(
    shape: ItemShape,
    name: &str,
    kind: ProtocolKind,
    fields: &[FieldTokens],
    attrs: &[ItemAttr],
    args: &[SurfaceArg],
) -> (r: Result<ManifestEntry, String>)
    ensures
        match shape_error(shape) {
            Some(m) => match r {
                Err(e) => e@ == m,
                Ok(_) => false,
            },
            None => match read_args(args@) {
                Err(m) => match r {
                    Err(e) => e@ == m,
                    Ok(_) => false,
                },
                Ok(st) => match r {
                    Ok(entry) => {
                        &&& entry.name@ == name@
                        &&& entry.kind == kind
                        &&& entry@.fields == entry_fields(shape, fields@)
                        &&& entry.doc@ == doc_text(attrs@)
                        &&& strictly_sorted(texts(entry.surfaces@))
                        &&& texts(entry.surfaces@).to_set() == st.surfaces.to_set()
                    },
                    Err(_) => false,
                },
            },
        },
{
    match validate_struct(shape) {
        Ok(()) => {},
        Err(e) => {
            return Err(e);
        },
    }
    let surfaces = match parse_surfaces(args) {
        Ok(s) => s,
        Err(e) => {
            return Err(e);
        },
    };
    let mut out: Vec<ManifestField> = Vec::new();
    if shape == ItemShape::NamedStruct {
        let mut i: usize = 0;
        while i < fields.len()
            invariant
                i <= fields@.len(),
                out@.map_values(|f: ManifestField| (f.name@, f.ty@)) == fields@.take(
                    i as int,
                ).map_values(|f: FieldTokens| (f.name@, type_text(f.ty_tokens@))),
            decreases fields@.len() - i,
        {
            let ty = type_to_string(fields[i].ty_tokens.as_str());
            let fname = fields[i].name.clone();
            let ghost before = out@;
            out.push(ManifestField { name: fname, ty });
            proof {
                let lhs = out@.map_values(|f: ManifestField| (f.name@, f.ty@));
                let rhs = fields@.take(i + 1 as int).map_values(
                    |f: FieldTokens| (f.name@, type_text(f.ty_tokens@)),
                );
                assert(before.map_values(|f: ManifestField| (f.name@, f.ty@)).len() == before.len());
                assert(before.len() == i);
                assert(out@.len() == i + 1);
                assert(i < fields@.len());
                assert(rhs.len() == i + 1);
                assert(lhs.len() == rhs.len());
                assert forall|k: int| 0 <= k < lhs.len() implies lhs[k] == rhs[k] by {
                    if k < i {
                        assert(out@[k] == before[k]);
                        assert(lhs[k] == before.map_values(|f: ManifestField| (f.name@, f.ty@))[k]);
                    } else {
                        assert(out@[k].name@ == fields@[i as int].name@);
                    }
                }
                assert(out@.map_values(|f: ManifestField| (f.name@, f.ty@)) =~= fields@.take(
                    i + 1 as int,
                ).map_values(|f: FieldTokens| (f.name@, type_text(f.ty_tokens@))));
            }
            i = i + 1;
        }
        proof {
            assert(fields@.take(fields@.len() as int) =~= fields@);
        }
    } else {
        proof {
            assert(out@.map_values(|f: ManifestField| (f.name@, f.ty@)) =~= Seq::<
                (Seq<char>, Seq<char>),
            >::empty());
        }
    }
    let entry = ManifestEntry {
        name: name.to_owned(),
        kind,
        fields: out,
        doc: extract_doc(attrs),
        surfaces,
    };
    Ok(entry)
}

/// Two strictly sorted sequences of strings with the same elements are
/// equal: the surfaces that `parse_surfaces` gives back depend only on the
/// set of names written, not on their order or repetition.
pub proof fn lemma_strictly_sorted_unique(a: Seq<Seq<char>>, b: Seq<Seq<char>>)
    requires
        strictly_sorted(a),
        strictly_sorted(b),
        a.to_set() == b.to_set(),
    ensures
        a == b,
    decreases a.len(),
{
    if a.len() == 0 {
        if b.len() > 0 {
            assert(b.to_set().contains(b[0]));
            assert(!a.to_set().contains(b[0]));
        }
        assert(a =~= b);
    } else {
        if b.len() == 0 {
            assert(a.to_set().contains(a[0]));
        } else {
            // The first elements are the least elements of the same set.
            assert(a.to_set().contains(a[0]));
            assert(b.contains(a[0]));
            let j = choose|j: int| 0 <= j < b.len() && b[j] == a[0];
            assert(b.to_set().contains(b[0]));
            assert(a.contains(b[0]));
            let i = choose|i: int| 0 <= i < a.len() && a[i] == b[0];
            if j > 0 {
                assert(lex_le(b[0], b[j]) && b[0] != b[j]);
                if i > 0 {
                    assert(lex_le(a[0], a[i]));
                    lemma_lex_antisym(a[0], b[0]);
                }
            }
            if i > 0 {
                assert(lex_le(a[0], a[i]) && a[0] != a[i]);
                if j > 0 {
                    lemma_lex_antisym(a[0], b[0]);
                }
            }
            assert(a[0] == b[0]);
            let a1 = a.drop_first();
            let b1 = b.drop_first();
            assert forall|x: Seq<char>| a1.to_set().contains(x) <==> b1.to_set().contains(x) by {
                if a1.contains(x) {
                    let k = choose|k: int| 0 <= k < a1.len() && a1[k] == x;
                    assert(a[k + 1] == x);
                    assert(a.to_set().contains(x));
                    assert(b.contains(x));
                    let m = choose|m: int| 0 <= m < b.len() && b[m] == x;
                    if m == 0 {
                        assert(a[0] != a[k + 1]);
                    } else {
                        assert(b1[m - 1] == x);
                    }
                }
                if b1.contains(x) {
                    let k = choose|k: int| 0 <= k < b1.len() && b1[k] == x;
                    assert(b[k + 1] == x);
                    assert(b.to_set().contains(x));
                    assert(a.contains(x));
                    let m = choose|m: int| 0 <= m < a.len() && a[m] == x;
                    if m == 0 {
                        assert(b[0] != b[k + 1]);
                    } else {
                        assert(a1[m - 1] == x);
                    }
                }
            }
            assert(a1.to_set() =~= b1.to_set());
            lemma_strictly_sorted_unique(a1, b1);
            assert(a =~= seq![a[0]] + a1);
            assert(b =~= seq![b[0]] + b1);
        }
    }
}

} // verus!
