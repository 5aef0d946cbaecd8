use vstd::prelude::*;
use crate::ast::{
    decimal, decl_prefix, decl_types_sane, fields_sane, find_version, is_array_recursively,
    is_sane_deep, latest_handle, qualified_name, reg_insert, registry_wf, skip_text, ApiM, DeclM,
    FieldM, RetM, TriviaM, TypeM,
};
use crate::emit::rust::{
    args_text as rust_args, call_text, forward_text, ret_text as rust_ret,
};
use crate::grammar::{
    advance, at2, block_end, expect, expect_ident, expect_u64, lemma_block_end, lemma_lex_from,
    lemma_line_end, lex, lex_from, line_end, maybe_parse_field, parse_basetype, parse_const,
    parse_decl, parse_decls, parse_fields, parse_fn, parse_more_fields, parse_opaque, parse_ret,
    parse_source, parse_struct, parse_type, scan_skip, scan_white, skip_at, start_pos, starts_decl,
    tok_at, tokens, Lexed, Pos, TokenM,
};

verus! {

// ---------------------------------------------------------------------------
// Type sanity
// ---------------------------------------------------------------------------

proof fn lemma_type_sane(t: Seq<Lexed>, i: nat)
    ensures
        parse_type(t, i) matches Ok((ty, _)) ==> is_sane_deep(ty),
    decreases t.len() - i,
{
    if let Ok((ty, _)) = parse_type(t, i) {
        match tok_at(t, i) {
            TokenM::Punc('*') | TokenM::Punc('[') => {
                lemma_type_sane(t, i + 1);
            },
            _ => {},
        }
    }
}

proof fn lemma_field_sane(t: Seq<Lexed>, i: nat)
    ensures
        maybe_parse_field(t, i) matches Ok((Some(f), _)) ==> is_sane_deep(f.typ),
{
    if let TokenM::Ident(_) = tok_at(t, i) {
        if let Ok((_, j)) = expect_ident(t, i) {
            if let Ok(k) = expect(t, j, TokenM::Punc(':')) {
                lemma_type_sane(t, k);
            }
        }
    }
}

proof fn lemma_more_fields_sane(t: Seq<Lexed>, i: nat, acc: Seq<FieldM>)
    requires
        fields_sane(acc),
    ensures
        parse_more_fields(t, i, acc) matches Ok((fs, _)) ==> fields_sane(fs),
    decreases t.len() - i,
{
    if !(i >= t.len() || tok_at(t, i) != TokenM::Punc(',')) {
        if let Ok(j) = advance(t, i) {
            lemma_field_sane(t, j);
            crate::grammar::lemma_field_index(t, j);
            if let Ok((Some(f), k)) = maybe_parse_field(t, j) {
                assert(fields_sane(acc.push(f))) by {
                    assert forall|m: int| 0 <= m < acc.push(f).len() implies is_sane_deep(
                        #[trigger] acc.push(f)[m].typ,
                    ) by {
                        if m < acc.len() {
                            assert(acc.push(f)[m] == acc[m]);
                        }
                    }
                }
                lemma_more_fields_sane(t, k, acc.push(f));
            }
        }
    }
}

proof fn lemma_fields_sane(t: Seq<Lexed>, i: nat)
    ensures
        parse_fields(t, i) matches Ok((fs, _)) ==> fields_sane(fs),
{
    lemma_field_sane(t, i);
    if let Ok((Some(f), j)) = maybe_parse_field(t, i) {
        lemma_more_fields_sane(t, j, seq![f]);
    }
}

spec fn fields_ok(r: crate::grammar::Parsed<Seq<FieldM>>) -> bool {
    match r {
        Ok((fs, _)) => fields_sane(fs),
        Err(_) => true,
    }
}

spec fn ret_ok(r: crate::grammar::Parsed<RetM>) -> bool {
    match r {
        Ok((RetM::Value(ty), _)) => is_sane_deep(ty) && !is_array_recursively(ty),
        _ => true,
    }
}

proof fn lemma_decl_sane(t: Seq<Lexed>, i: nat)
    ensures
        parse_decl(t, i) matches Ok((d, _)) ==> decl_types_sane(d),
{
    reveal(parse_fn);
    reveal(parse_struct);
    reveal(parse_opaque);
    reveal(parse_const);
    assert forall|j: nat| fields_ok(#[trigger] parse_fields(t, j)) by {
        lemma_fields_sane(t, j);
    }
    assert forall|j: nat| ret_ok(#[trigger] parse_ret(t, j)) by {
        if tok_at(t, j) == TokenM::Arrow {
            lemma_type_sane(t, j + 1);
        }
    }

}

proof fn lemma_decls_sane(t: Seq<Lexed>, i: nat, acc: Seq<DeclM>, reg: Seq<ApiM>)
    requires
        forall|k: int| 0 <= k < acc.len() ==> decl_types_sane(#[trigger] acc[k]),
    ensures
        parse_decls(t, i, acc, reg) matches Ok(u) ==> forall|k: int|
            0 <= k < u.decls.len() ==> decl_types_sane(#[trigger] u.decls[k]),
    decreases t.len() - i,
{
    if i < t.len() && starts_decl(tok_at(t, i)) {
        crate::grammar::lemma_decl_index(t, i);
        lemma_decl_sane(t, i);
        if let Ok((d, j)) = parse_decl(t, i) {
            assert forall|k: int| 0 <= k < acc.push(d).len() implies decl_types_sane(
                #[trigger] acc.push(d)[k],
            ) by {
                if k < acc.len() {
                    assert(acc.push(d)[k] == acc[k]);
                }
            }
            match d {
                DeclM::Fn { name, version, .. } => {
                    lemma_decls_sane(t, j, acc.push(d), reg_insert(reg, name, version, acc.len()).0);
                },
                _ => {
                    lemma_decls_sane(t, j, acc.push(d), reg);
                },
            }
        }
    }
}

/// The type grammar alone, without the sanity check.
pub open spec fn type_syntax(t: Seq<Lexed>, i: nat) -> crate::grammar::Parsed<TypeM>
    decreases t.len() - i,
{
    match tok_at(t, i) {
        TokenM::Punc('*') => match advance(t, i) {
            Ok(j) => match type_syntax(t, j) {
                Ok((sub, k)) => Ok((TypeM::Pointer(Box::new(sub)), k)),
                Err(d) => Err(d),
            },
            Err(d) => Err(d),
        },
        TokenM::Punc('[') => match advance(t, i) {
            Ok(j) => match type_syntax(t, j) {
                Ok((sub, k)) => match expect(t, k, TokenM::Punc(';')) {
                    Ok(k1) => match expect_u64(t, k1) {
                        Ok((n, k2)) => match expect(t, k2, TokenM::Punc(']')) {
                            Ok(k3) => Ok((TypeM::Array(Box::new(sub), n), k3)),
                            Err(d) => Err(d),
                        },
                        Err(d) => Err(d),
                    },
                    Err(d) => Err(d),
                },
                Err(d) => Err(d),
            },
            Err(d) => Err(d),
        },
        _ => match parse_basetype(t, i) {
            Ok((b, j)) => Ok((TypeM::Base(b), j)),
            Err(d) => Err(d),
        },
    }
}

/// The sanity check is the only thing that rejects a well-formed type: a
/// type is accepted exactly when it is well-formed and it, and every type
/// inside it, is sane (no array in an array, no pointer to an array), and it
/// is then taken as written. So `[*u8; 2]` and `*u8` are accepted, while
/// `[[u8; 2]; 2]` and `*[u8; 2]` are not.
pub proof fn type_accepted_iff_sane(t: Seq<Lexed>, i: nat)
    ensures
        parse_type(t, i) is Ok <==> (type_syntax(t, i) matches Ok((ty, _)) && is_sane_deep(ty)),
        parse_type(t, i) matches Ok(r) ==> type_syntax(t, i) == Ok::<(TypeM, nat), crate::grammar::Diag>(r),
    decreases t.len() - i,
{
    match tok_at(t, i) {
        TokenM::Punc('*') | TokenM::Punc('[') => {
            if let Ok(j) = advance(t, i) {
                type_accepted_iff_sane(t, j);
                if let Ok((sub, k)) = type_syntax(t, j) {
                    if !is_sane_deep(sub) {
                        assert(parse_type(t, j) is Err);
                    } else {
                        assert(parse_type(t, j) == Ok::<(TypeM, nat), crate::grammar::Diag>((sub, k)));
                    }
                } else {
                    assert(parse_type(t, j) is Err);
                }
            }
        },
        _ => {},
    }
}

/// Type sanity: a source text that parses holds no array of arrays, no
/// pointer to an array, and no function returning an array.
pub proof fn parsed_types_are_sane(s: Seq<char>)
    ensures
        parse_source(s) matches Ok(u) ==> forall|k: int|
            0 <= k < u.decls.len() ==> decl_types_sane(#[trigger] u.decls[k]),
{
    lemma_decls_sane(tokens(s), 0, Seq::empty(), Seq::empty());
}

// ---------------------------------------------------------------------------
// Symbols and versions
// ---------------------------------------------------------------------------

pub open spec fn names_distinct(ds: Seq<DeclM>) -> bool {
    forall|j: int, k: int|
        0 <= j < ds.len() && 0 <= k < ds.len() && j != k ==> qualified_name(#[trigger] ds[j])
            != qualified_name(#[trigger] ds[k])
}

/// Each registry entry's latest version is registered and is the greatest of
/// its versions, and no version is registered twice.
pub open spec fn registry_tracks_latest(reg: Seq<ApiM>) -> bool {
    &&& registry_wf(reg)
    &&& forall|k: int, j: int|
        0 <= k < reg.len() && 0 <= j < reg[k].versions.len() ==> (#[trigger] reg[k].versions[j]).0
            <= reg[k].latest
    &&& forall|k: int, j: int, m: int|
        0 <= k < reg.len() && 0 <= j < m < reg[k].versions.len() ==> (
        #[trigger] reg[k].versions[j]).0 != (#[trigger] reg[k].versions[m]).0
}

proof fn lemma_find_version_none(vs: Seq<(u64, nat)>, v: u64)
    ensures
        find_version(vs, v) is None ==> forall|j: int| 0 <= j < vs.len() ==> (#[trigger] vs[j]).0 != v,
    decreases vs.len(),
{
    if vs.len() > 0 && vs.last().0 != v {
        lemma_find_version_none(vs.drop_last(), v);
        if find_version(vs, v) is None {
            assert forall|j: int| 0 <= j < vs.len() implies (#[trigger] vs[j]).0 != v by {
                if j < vs.len() - 1 {
                    assert(vs[j] == vs.drop_last()[j]);
                }
            }
        }
    }
}

proof fn lemma_reg_insert_tracks(reg: Seq<ApiM>, name: Seq<char>, v: u64, h: nat)
    requires
        registry_tracks_latest(reg),
    ensures
        registry_tracks_latest(reg_insert(reg, name, v, h).0),
{
    crate::ast::lemma_reg_insert_wf(reg, name, v, h);
    crate::ast::lemma_find_api_in_range(reg, name);
    let r = reg_insert(reg, name, v, h).0;
    match crate::ast::find_api(reg, name) {
        Some(k) => {
            let api = reg[k];
            lemma_find_version_none(api.versions, v);
            if find_version(api.versions, v) is None {
                assert forall|a: int, j: int|
                    0 <= a < r.len() && 0 <= j < r[a].versions.len() implies (
                    #[trigger] r[a].versions[j]).0 <= r[a].latest by {
                    if a == k && j < api.versions.len() {
                        assert(r[a].versions[j] == api.versions[j]);
                        assert(api.versions[j].0 <= api.latest);
                    } else if a != k {
                        assert(reg[a].versions[j].0 <= reg[a].latest);
                    }
                }
                assert forall|a: int, j: int, m: int|
                    0 <= a < r.len() && 0 <= j < m < r[a].versions.len() implies (
                    #[trigger] r[a].versions[j]).0 != (#[trigger] r[a].versions[m]).0 by {
                    if a == k {
                        assert(r[a].versions[j] == api.versions[j]);
                        if m < api.versions.len() {
                            assert(r[a].versions[m] == api.versions[m]);
                        }
                    } else {
                        assert(reg[a].versions[j].0 != reg[a].versions[m].0);
                    }
                }
            }
        },
        None => {
            assert forall|a: int, j: int|
                0 <= a < r.len() && 0 <= j < r[a].versions.len() implies (
                #[trigger] r[a].versions[j]).0 <= r[a].latest by {
                if a < reg.len() {
                    assert(reg[a].versions[j].0 <= reg[a].latest);
                }
            }
            assert forall|a: int, j: int, m: int|
                0 <= a < r.len() && 0 <= j < m < r[a].versions.len() implies (
                #[trigger] r[a].versions[j]).0 != (#[trigger] r[a].versions[m]).0 by {
                if a < reg.len() {
                    assert(reg[a].versions[j].0 != reg[a].versions[m].0);
                }
            }
        },
    }
}

proof fn lemma_decls_unique(t: Seq<Lexed>, i: nat, acc: Seq<DeclM>, reg: Seq<ApiM>)
    requires
        names_distinct(acc),
        registry_tracks_latest(reg),
    ensures
        parse_decls(t, i, acc, reg) matches Ok(u) ==> names_distinct(u.decls)
            && registry_tracks_latest(u.registry),
    decreases t.len() - i,
{
    if i < t.len() && starts_decl(tok_at(t, i)) {
        crate::grammar::lemma_decl_index(t, i);
        if let Ok((d, j)) = parse_decl(t, i) {
            let q = qualified_name(d);
            if !crate::grammar::has_name(acc, q) {
                let acc2 = acc.push(d);
                assert forall|a: int, b: int|
                    0 <= a < acc2.len() && 0 <= b < acc2.len() && a != b implies qualified_name(
                    #[trigger] acc2[a],
                ) != qualified_name(#[trigger] acc2[b]) by {
                    if a < acc.len() && b < acc.len() {
                        assert(acc2[a] == acc[a] && acc2[b] == acc[b]);
                    } else if a < acc.len() {
                        assert(acc2[a] == acc[a]);
                    } else {
                        assert(acc2[b] == acc[b]);
                    }
                }
                match d {
                    DeclM::Fn { name, version, .. } => {
                        lemma_reg_insert_tracks(reg, name, version, acc.len());
                        lemma_decls_unique(t, j, acc2, reg_insert(reg, name, version, acc.len()).0);
                    },
                    _ => {
                        lemma_decls_unique(t, j, acc2, reg);
                    },
                }
            }
        }
    }
}

/// Symbol and version uniqueness: in a source text that parses, no two
/// declarations share a qualified name (a source where two do fails to
/// parse), no function version is registered twice, and each function's
/// recorded latest version is the greatest of its versions.
pub proof fn parsed_symbols_are_unique(s: Seq<char>)
    ensures
        parse_source(s) matches Ok(u) ==> names_distinct(u.decls) && registry_tracks_latest(
            u.registry,
        ),
{
    lemma_decls_unique(tokens(s), 0, Seq::empty(), Seq::empty());
}


/// The registry indexes the functions of `ds`: one entry per base name, each
/// registered version leads to the function declaration of that name and
/// version, and every function declaration is registered.
pub open spec fn registry_indexes(reg: Seq<ApiM>, ds: Seq<DeclM>) -> bool {
    &&& forall|a: int, b: int| 0 <= a < b < reg.len() ==> (#[trigger] reg[a]).name != (#[trigger] reg[b]).name
    &&& forall|a: int, j: int|
        0 <= a < reg.len() && 0 <= j < reg[a].versions.len() ==> ({
            let (v, h) = #[trigger] reg[a].versions[j];
            h < ds.len() && (ds[h as int] matches DeclM::Fn { name, version, .. } && name
                == reg[a].name && version == v)
        })
    &&& forall|h: int|
        0 <= h < ds.len() && (#[trigger] ds[h]) is Fn ==> exists|a: int, j: int|
            0 <= a < reg.len() && 0 <= j < reg[a].versions.len() && (#[trigger] reg[a].versions[j]).1
                == h
}

proof fn lemma_find_api_none(reg: Seq<ApiM>, name: Seq<char>)
    ensures
        crate::ast::find_api(reg, name) is None ==> forall|a: int| 0 <= a < reg.len() ==> (#[trigger] reg[a]).name != name,
    decreases reg.len(),
{
    if reg.len() > 0 && reg.last().name != name {
        lemma_find_api_none(reg.drop_last(), name);
        if crate::ast::find_api(reg, name) is None {
            assert forall|a: int| 0 <= a < reg.len() implies (#[trigger] reg[a]).name != name by {
                if a < reg.len() - 1 {
                    assert(reg[a] == reg.drop_last()[a]);
                }
            }
        }
    }
}

proof fn lemma_reg_insert_indexes(reg: Seq<ApiM>, ds: Seq<DeclM>, d: DeclM)
    requires
        registry_indexes(reg, ds),
        d is Fn,
        reg_insert(reg, d->Fn_name, d->Fn_version, ds.len()).1 is None,
    ensures
        registry_indexes(reg_insert(reg, d->Fn_name, d->Fn_version, ds.len()).0, ds.push(d)),
{
    let name = d->Fn_name;
    let v = d->Fn_version;
    let h = ds.len();
    let r = reg_insert(reg, name, v, h).0;
    let ds2 = ds.push(d);
    crate::ast::lemma_find_api_in_range(reg, name);
    lemma_find_api_none(reg, name);
    match crate::ast::find_api(reg, name) {
        Some(k) => {
            let api = reg[k];
            assert(r.len() == reg.len());
            assert forall|a: int, b: int| 0 <= a < b < r.len() implies (#[trigger] r[a]).name != (#[trigger] r[b]).name by {
                assert(reg[a].name != reg[b].name);
            }
            assert forall|a: int, j: int|
                0 <= a < r.len() && 0 <= j < r[a].versions.len() implies ({
                    let (v2, h2) = #[trigger] r[a].versions[j];
                    h2 < ds2.len() && (ds2[h2 as int] matches DeclM::Fn { name, version, .. } && name
                        == r[a].name && version == v2)
                }) by {
                if a == k && j == api.versions.len() {
                    assert(r[a].versions[j] == (v, h));
                } else {
                    assert(r[a].versions[j] == reg[a].versions[j]);
                    let (v2, h2) = reg[a].versions[j];
                    assert(ds2[h2 as int] == ds[h2 as int]);
                }
            }
            assert forall|g: int| 0 <= g < ds2.len() && (#[trigger] ds2[g]) is Fn implies exists|a: int, j: int|
                0 <= a < r.len() && 0 <= j < r[a].versions.len() && (#[trigger] r[a].versions[j]).1 == g by {
                if g == h {
                    assert(r[k].versions[api.versions.len() as int].1 == g);
                } else {
                    assert(ds2[g] == ds[g]);
                    let (a, j) = choose|a: int, j: int|
                        0 <= a < reg.len() && 0 <= j < reg[a].versions.len() && (#[trigger] reg[a].versions[j]).1 == g;
                    assert(r[a].versions[j] == reg[a].versions[j]);
                }
            }
        },
        None => {
            assert forall|a: int, b: int| 0 <= a < b < r.len() implies (#[trigger] r[a]).name != (#[trigger] r[b]).name by {
                if b < reg.len() {
                    assert(reg[a].name != reg[b].name);
                } else {
                    assert(reg[a].name != name);
                }
            }
            assert forall|a: int, j: int|
                0 <= a < r.len() && 0 <= j < r[a].versions.len() implies ({
                    let (v2, h2) = #[trigger] r[a].versions[j];
                    h2 < ds2.len() && (ds2[h2 as int] matches DeclM::Fn { name, version, .. } && name
                        == r[a].name && version == v2)
                }) by {
                if a < reg.len() {
                    assert(r[a] == reg[a]);
                    let (v2, h2) = reg[a].versions[j];
                    assert(ds2[h2 as int] == ds[h2 as int]);
                }
            }
            assert forall|g: int| 0 <= g < ds2.len() && (#[trigger] ds2[g]) is Fn implies exists|a: int, j: int|
                0 <= a < r.len() && 0 <= j < r[a].versions.len() && (#[trigger] r[a].versions[j]).1 == g by {
                if g == h {
                    assert(r[reg.len() as int].versions[0].1 == g);
                } else {
                    assert(ds2[g] == ds[g]);
                    let (a, j) = choose|a: int, j: int|
                        0 <= a < reg.len() && 0 <= j < reg[a].versions.len() && (#[trigger] reg[a].versions[j]).1 == g;
                    assert(r[a] == reg[a]);
                }
            }
        },
    }
}

proof fn lemma_push_other_indexes(reg: Seq<ApiM>, ds: Seq<DeclM>, d: DeclM)
    requires
        registry_indexes(reg, ds),
        !(d is Fn),
    ensures
        registry_indexes(reg, ds.push(d)),
{
    let ds2 = ds.push(d);
    assert forall|a: int, j: int|
        0 <= a < reg.len() && 0 <= j < reg[a].versions.len() implies ({
            let (v2, h2) = #[trigger] reg[a].versions[j];
            h2 < ds2.len() && (ds2[h2 as int] matches DeclM::Fn { name, version, .. } && name
                == reg[a].name && version == v2)
        }) by {
        let (v2, h2) = reg[a].versions[j];
        assert(ds2[h2 as int] == ds[h2 as int]);
    }
    assert forall|g: int| 0 <= g < ds2.len() && (#[trigger] ds2[g]) is Fn implies exists|a: int, j: int|
        0 <= a < reg.len() && 0 <= j < reg[a].versions.len() && (#[trigger] reg[a].versions[j]).1 == g by {
        assert(ds2[g] == ds[g]);
    }
}

proof fn lemma_decls_index(t: Seq<Lexed>, i: nat, acc: Seq<DeclM>, reg: Seq<ApiM>)
    requires
        registry_indexes(reg, acc),
    ensures
        parse_decls(t, i, acc, reg) matches Ok(u) ==> registry_indexes(u.registry, u.decls),
    decreases t.len() - i,
{
    if i < t.len() && starts_decl(tok_at(t, i)) {
        crate::grammar::lemma_decl_index(t, i);
        if let Ok((d, j)) = parse_decl(t, i) {
            if !crate::grammar::has_name(acc, qualified_name(d)) {
                match d {
                    DeclM::Fn { name, version, .. } => {
                        if reg_insert(reg, name, version, acc.len()).1 is None {
                            lemma_reg_insert_indexes(reg, acc, d);
                            lemma_decls_index(t, j, acc.push(d), reg_insert(reg, name, version, acc.len()).0);
                        }
                    },
                    _ => {
                        lemma_push_other_indexes(reg, acc, d);
                        lemma_decls_index(t, j, acc.push(d), reg);
                    },
                }
            }
        }
    }
}

/// The version registry of a parsed unit indexes its functions exactly:
/// one entry per base name, each registered version leading to the function
/// declaration of that name and version, and every function registered.
pub proof fn parsed_registry_indexes_functions(s: Seq<char>)
    ensures
        parse_source(s) matches Ok(u) ==> registry_indexes(u.registry, u.decls),
{
    lemma_decls_index(tokens(s), 0, Seq::empty(), Seq::empty());
}

/// Latest-version forwarding: in a parsed unit, the latest version of each
/// registered function leads to the declaration of that function at its
/// greatest version, and its forwarding wrapper is that declaration's
/// signature under the base name, calling `{name}_v{latest}`.
pub proof fn parsed_forwarding_targets_latest(s: Seq<char>)
    ensures
        parse_source(s) matches Ok(u) ==> forall|k: int|
            0 <= k < u.registry.len() ==> ({
                let api = #[trigger] u.registry[k];
                let h = latest_handle(api);
                &&& h < u.decls.len()
                &&& u.decls[h as int] matches DeclM::Fn { name, version, args, ret, .. }
                &&& u.decls[h as int]->Fn_name == api.name
                &&& u.decls[h as int]->Fn_version == api.latest
                &&& forall|j: int| 0 <= j < api.versions.len() ==> (#[trigger] api.versions[j]).0 <= api.latest
                &&& forward_text(api, u.decls) == "pub unsafe fn "@ + api.name + "("@ + rust_args(
                    u.decls[h as int]->Fn_args,
                ) + ")"@ + rust_ret(u.decls[h as int]->Fn_ret) + " { "@ + api.name + "_v"@
                    + decimal(api.latest as nat) + "("@ + call_text(u.decls[h as int]->Fn_args)
                    + ") }\n"@
            }),
{
    parsed_symbols_are_unique(s);
    parsed_registry_indexes_functions(s);
    if let Ok(u) = parse_source(s) {
        assert forall|k: int| 0 <= k < u.registry.len() implies ({
            let api = #[trigger] u.registry[k];
            let h = latest_handle(api);
            &&& h < u.decls.len()
            &&& u.decls[h as int] matches DeclM::Fn { name, version, args, ret, .. }
            &&& u.decls[h as int]->Fn_name == api.name
            &&& u.decls[h as int]->Fn_version == api.latest
            &&& forall|j: int| 0 <= j < api.versions.len() ==> (#[trigger] api.versions[j]).0 <= api.latest
            &&& forward_text(api, u.decls) == "pub unsafe fn "@ + api.name + "("@ + rust_args(
                u.decls[h as int]->Fn_args,
            ) + ")"@ + rust_ret(u.decls[h as int]->Fn_ret) + " { "@ + api.name + "_v"@
                + decimal(api.latest as nat) + "("@ + call_text(u.decls[h as int]->Fn_args)
                + ") }\n"@
        }) by {
            let api = u.registry[k];
            assert(find_version(api.versions, api.latest) is Some);
            crate::ast::lemma_find_version_in_range(api.versions, api.latest);
            let j = find_version(api.versions, api.latest)->0;
            assert(api.versions[j].0 == api.latest);
        }
    }
}

/// A function without arguments is written with C's `(void)` and with an
/// empty Rust parameter list, never with an ambiguous `()` in C.
pub proof fn no_argument_functions(d: DeclM, export: bool, fwd: bool)
    requires
        d matches DeclM::Fn { args, .. } && args.len() == 0,
    ensures
        crate::emit::c::decl_text(d, export, fwd) == skip_text(d->Fn_prefix) + (if export {
            "DANDIYA_API_EXPORT "@
        } else {
            Seq::empty()
        }) + crate::emit::c::ret_text(d->Fn_ret) + " "@ + d->Fn_name + "_v"@ + decimal(
            d->Fn_version as nat,
        ) + "("@ + "void"@ + ");"@,
        crate::emit::rust::decl_text(d) == skip_text(d->Fn_prefix) + "extern \"C\" { pub fn "@
            + d->Fn_name + "_v"@ + decimal(d->Fn_version as nat) + "("@ + ")"@ + rust_ret(d->Fn_ret)
            + "; }"@,
{
    assert(rust_args(d->Fn_args) == Seq::<char>::empty());
    assert(Seq::<char>::empty() + ")"@ =~= ")"@);
}

// ---------------------------------------------------------------------------
// Trivia round trip
// ---------------------------------------------------------------------------

proof fn lemma_skip_text_concat(a: Seq<TriviaM>, b: Seq<TriviaM>)
    ensures
        skip_text(a + b) == skip_text(a) + skip_text(b),
    decreases b.len(),
{
    if b.len() == 0 {
        assert(a + b =~= a);
    } else {
        lemma_skip_text_concat(a, b.drop_last());
        assert((a + b).drop_last() =~= a + b.drop_last());
        assert((a + b).last() == b.last());
    }
}

/// A trivia run, written back, is the source text it was read from.
pub proof fn lemma_skip_verbatim(s: Seq<char>, p: Pos)
    requires
        p.idx <= s.len(),
    ensures
        scan_skip(s, p) matches Ok((sk, q)) ==> p.idx <= q.idx <= s.len() && skip_text(sk)
            == s.subrange(p.idx as int, q.idx as int),
    decreases s.len() - p.idx,
{
    crate::grammar::lemma_scan_white(s, p);
    let w = scan_white(s, p);
    let ws = TriviaM::Whitespace(s.subrange(p.idx as int, w.idx as int));
    assert(skip_text(seq![ws]) =~= s.subrange(p.idx as int, w.idx as int)) by {
        assert(seq![ws].drop_last() =~= Seq::<TriviaM>::empty());
        assert(skip_text(seq![ws].drop_last()) == Seq::<char>::empty());
        assert(seq![ws].last() == ws);
    }
    if at2(s, w.idx, '/', '/') {
        let e = line_end(s, w.idx + 2);
        lemma_line_end(s, w.idx + 2);
        let lc = TriviaM::LineComment(s.subrange((w.idx + 2) as int, e as int));
        lemma_skip_verbatim(s, Pos { idx: e, ..w });
        if let Ok((rest, q)) = scan_skip(s, Pos { idx: e, ..w }) {
            reveal_strlit("//");
            assert(seq![ws, lc].drop_last() =~= seq![ws]);
            lemma_skip_text_concat(seq![ws, lc], rest);
            assert(skip_text(seq![ws, lc]) =~= s.subrange(p.idx as int, e as int));
            assert(s.subrange(p.idx as int, e as int) + s.subrange(e as int, q.idx as int)
                =~= s.subrange(p.idx as int, q.idx as int));
        }
    } else if at2(s, w.idx, '/', '*') {
        lemma_block_end(s, w.idx + 2);
        if let Some(e) = block_end(s, w.idx + 2) {
            let bc = TriviaM::BlockComment(s.subrange((w.idx + 2) as int, e as int));
            crate::grammar::lemma_pass_to(s, w, e + 2);
            lemma_skip_verbatim(s, crate::grammar::pass_to(s, w, e + 2));
            if let Ok((rest, q)) = scan_skip(s, crate::grammar::pass_to(s, w, e + 2)) {
                reveal_strlit("/*");
                reveal_strlit("*/");
                assert(seq![ws, bc].drop_last() =~= seq![ws]);
                lemma_skip_text_concat(seq![ws, bc], rest);
                assert(skip_text(seq![ws, bc]) =~= s.subrange(p.idx as int, (e + 2) as int));
                assert(s.subrange(p.idx as int, (e + 2) as int) + s.subrange((e + 2) as int, q.idx as int)
                    =~= s.subrange(p.idx as int, q.idx as int));
            }
        }
    }
}

/// Trivia round trip, one step at a time: the trivia the tokenizer hands
/// out before a token, written back, is exactly the source text between the
/// previous token and this one.
pub proof fn trivia_is_verbatim(s: Seq<char>, p: Pos)
    requires
        p.idx <= s.len(),
    ensures
        lex(s, p) matches Lexed::Tok { skip, tok_idx, .. } ==> p.idx <= tok_idx <= s.len() && skip_text(
            skip,
        ) == s.subrange(p.idx as int, tok_idx as int),
{
    lemma_skip_verbatim(s, p);
}


/// Where token `i` starts.
pub open spec fn tok_start(t: Seq<Lexed>, i: int) -> nat {
    match t[i] {
        Lexed::Tok { tok_idx, .. } => tok_idx,
        Lexed::Fail(_) => 0,
    }
}

/// Where token `i` ends.
pub open spec fn tok_end(t: Seq<Lexed>, i: int) -> nat {
    match t[i] {
        Lexed::Tok { after, .. } => after.idx,
        Lexed::Fail(_) => 0,
    }
}

/// Where the trivia before token `i` starts: the end of token `i - 1`, or the
/// start of the source.
pub open spec fn gap_start(t: Seq<Lexed>, i: int) -> nat {
    if i <= 0 {
        0
    } else {
        tok_end(t, i - 1)
    }
}

/// The source text between token `i - 1` (or the start) and token `i`.
pub open spec fn gap(s: Seq<char>, t: Seq<Lexed>, i: nat) -> Seq<char> {
    s.subrange(gap_start(t, i as int) as int, tok_start(t, i as int) as int)
}

proof fn lemma_stream_prefix(s: Seq<char>, p: Pos, k: nat)
    requires
        p.idx <= s.len(),
        k + 1 < lex_from(s, p).len(),
    ensures
        lex_from(s, p)[k as int] matches Lexed::Tok { tok, .. } && tok !is EndOfFile,
    decreases s.len() - p.idx,
{
    crate::grammar::lemma_lex_progress(s, p);
    if let Lexed::Tok { tok, after, .. } = lex(s, p) {
        if tok !is EndOfFile && p.idx < after.idx <= s.len() && k > 0 {
            lemma_stream_prefix(s, after, (k - 1) as nat);
        }
    }
}

/// The trivia handed out with token `i` of the stream is the gap before it,
/// and the stream's positions only move forward.
proof fn lemma_gap(s: Seq<char>, i: nat)
    requires
        i < tokens(s).len(),
        tokens(s)[i as int] is Tok,
    ensures
        skip_text(skip_at(tokens(s), i)) == gap(s, tokens(s), i),
        gap_start(tokens(s), i as int) <= tok_start(tokens(s), i as int) <= tok_end(tokens(s), i as int)
            <= s.len(),
        tok_at(tokens(s), i) is EndOfFile ==> tok_start(tokens(s), i as int) == s.len(),
{
    let t = tokens(s);
    if i == 0 {
        lemma_lex_from(s, start_pos(), 0);
        trivia_is_verbatim(s, start_pos());
        crate::grammar::lemma_lex_progress(s, start_pos());
    } else {
        lemma_stream_prefix(s, start_pos(), (i - 1) as nat);
        lemma_lex_from(s, start_pos(), (i - 1) as nat);
        if let Lexed::Tok { after, .. } = t[i - 1] {
            trivia_is_verbatim(s, after);
            crate::grammar::lemma_lex_progress(s, after);
        }
    }
}

/// From the start of token `i` to the end of token `j`, the stream moves
/// forward.
proof fn lemma_stream_order(s: Seq<char>, i: nat, j: nat)
    requires
        i <= j < tokens(s).len(),
        tokens(s)[j as int] is Tok,
    ensures
        tok_start(tokens(s), i as int) <= tok_end(tokens(s), j as int),
    decreases j - i,
{
    lemma_gap(s, j);
    if i < j {
        lemma_stream_prefix(s, start_pos(), (j - 1) as nat);
        lemma_stream_order(s, i, (j - 1) as nat);
    }
}

proof fn lemma_decl_lands_on_token(t: Seq<Lexed>, i: nat)
    requires
        i < t.len(),
        starts_decl(tok_at(t, i)),
    ensures
        parse_decl(t, i) matches Ok((d, k)) ==> k < t.len() && t[k as int] is Tok && decl_prefix(d)
            == skip_at(t, i),
{
    reveal(parse_fn);
    reveal(parse_struct);
    reveal(parse_opaque);
    reveal(parse_const);
    crate::grammar::lemma_decl_index(t, i);
}

/// Where the trivia before declaration `k` starts: the end of declaration
/// `k - 1`, or the start of the source.
pub open spec fn span_lo(b: Seq<nat>, k: int) -> nat {
    if k <= 0 {
        0
    } else {
        b[k - 1]
    }
}

/// Declaration `k` spans the source text `a[k]..b[k]`; its prefix trivia is
/// exactly the text before it back to the previous declaration, and the
/// trailing trivia is exactly the text after the last declaration.
pub open spec fn spans_fit(
    s: Seq<char>,
    ds: Seq<DeclM>,
    suffix: Seq<TriviaM>,
    a: Seq<nat>,
    b: Seq<nat>,
) -> bool {
    &&& a.len() == ds.len() && b.len() == ds.len()
    &&& forall|k: int| 0 <= k < ds.len() ==> span_lo(b, k) <= #[trigger] a[k] <= b[k] <= s.len()
    &&& forall|k: int|
        0 <= k < ds.len() ==> skip_text(decl_prefix(#[trigger] ds[k])) == s.subrange(
            span_lo(b, k) as int,
            a[k] as int,
        )
    &&& span_lo(b, ds.len() as int) <= s.len()
    &&& skip_text(suffix) == s.subrange(span_lo(b, ds.len() as int) as int, s.len() as int)
}

/// Prefix trivia and source text of the first `n` declarations, in order.
pub open spec fn rejoin(s: Seq<char>, ds: Seq<DeclM>, a: Seq<nat>, b: Seq<nat>, n: int) -> Seq<char>
    decreases n,
{
    if n <= 0 {
        Seq::empty()
    } else {
        rejoin(s, ds, a, b, n - 1) + skip_text(decl_prefix(ds[n - 1])) + s.subrange(
            a[n - 1] as int,
            b[n - 1] as int,
        )
    }
}

proof fn lemma_rejoin_push(s: Seq<char>, ds: Seq<DeclM>, a: Seq<nat>, b: Seq<nat>, d: DeclM, x: nat, y: nat, n: int)
    requires
        0 <= n <= ds.len(),
        n <= a.len(),
        n <= b.len(),
    ensures
        rejoin(s, ds.push(d), a.push(x), b.push(y), n) == rejoin(s, ds, a, b, n),
    decreases n,
{
    if n > 0 {
        lemma_rejoin_push(s, ds, a, b, d, x, y, n - 1);
        assert(ds.push(d)[n - 1] == ds[n - 1]);
        assert(a.push(x)[n - 1] == a[n - 1]);
        assert(b.push(y)[n - 1] == b[n - 1]);
    }
}

proof fn lemma_decls_spans(
    s: Seq<char>,
    i: nat,
    acc: Seq<DeclM>,
    reg: Seq<ApiM>,
    a: Seq<nat>,
    b: Seq<nat>,
) -> (r: (Seq<nat>, Seq<nat>))
    requires
        i < tokens(s).len(),
        tokens(s)[i as int] is Tok,
        a.len() == acc.len() && b.len() == acc.len(),
        forall|k: int| 0 <= k < acc.len() ==> span_lo(b, k) <= #[trigger] a[k] <= b[k] <= s.len(),
        forall|k: int|
            0 <= k < acc.len() ==> skip_text(decl_prefix(#[trigger] acc[k])) == s.subrange(
                span_lo(b, k) as int,
                a[k] as int,
            ),
        span_lo(b, acc.len() as int) == gap_start(tokens(s), i as int),
        rejoin(s, acc, a, b, acc.len() as int) == s.subrange(0, gap_start(tokens(s), i as int) as int),
    ensures
        parse_decls(tokens(s), i, acc, reg) matches Ok(u) ==> spans_fit(s, u.decls, u.suffix, r.0, r.1)
            && rejoin(s, u.decls, r.0, r.1, u.decls.len() as int) + skip_text(u.suffix) == s,
    decreases tokens(s).len() - i,
{
    let t = tokens(s);
    lemma_gap(s, i);
    if starts_decl(tok_at(t, i)) {
        crate::grammar::lemma_decl_index(t, i);
        lemma_decl_lands_on_token(t, i);
        if let Ok((d, j)) = parse_decl(t, i) {
            lemma_gap(s, j);
            lemma_stream_prefix(s, start_pos(), (j - 1) as nat);
            lemma_stream_order(s, i, (j - 1) as nat);
            let acc2 = acc.push(d);
            let a2 = a.push(tok_start(t, i as int));
            let b2 = b.push(tok_end(t, j - 1));
            assert forall|k: int| 0 <= k < acc2.len() implies span_lo(b2, k) <= #[trigger] a2[k] <= b2[k]
                <= s.len() by {
                if k < acc.len() {
                    assert(a2[k] == a[k] && b2[k] == b[k]);
                    if k > 0 {
                        assert(b2[k - 1] == b[k - 1]);
                    }
                } else if k > 0 {
                    assert(b2[k - 1] == b[k - 1]);
                }
            }
            assert forall|k: int| 0 <= k < acc2.len() implies skip_text(decl_prefix(#[trigger] acc2[k]))
                == s.subrange(span_lo(b2, k) as int, a2[k] as int) by {
                if k < acc.len() {
                    assert(acc2[k] == acc[k] && a2[k] == a[k]);
                    if k > 0 {
                        assert(b2[k - 1] == b[k - 1]);
                    }
                } else if k > 0 {
                    assert(b2[k - 1] == b[k - 1]);
                }
            }
            lemma_rejoin_push(s, acc, a, b, d, tok_start(t, i as int), tok_end(t, j - 1), acc.len() as int);
            let g = gap_start(t, i as int);
            assert(rejoin(s, acc2, a2, b2, acc2.len() as int) == s.subrange(0, g as int) + s.subrange(
                g as int,
                tok_start(t, i as int) as int,
            ) + s.subrange(tok_start(t, i as int) as int, tok_end(t, j - 1) as int));
            assert(rejoin(s, acc2, a2, b2, acc2.len() as int) =~= s.subrange(
                0,
                gap_start(t, j as int) as int,
            ));
            assert(span_lo(b2, acc2.len() as int) == gap_start(t, j as int));
            if !crate::grammar::has_name(acc, qualified_name(d)) {
                match d {
                    DeclM::Fn { name, version, .. } => {
                        let reg2 = reg_insert(reg, name, version, acc.len()).0;
                        return lemma_decls_spans(s, j, acc2, reg2, a2, b2);
                    },
                    _ => {
                        return lemma_decls_spans(s, j, acc2, reg, a2, b2);
                    },
                }
            }
        }
        (a, b)
    } else {
        if tok_at(t, i) is EndOfFile {
            assert(s.subrange(0, gap_start(t, i as int) as int) + s.subrange(
                gap_start(t, i as int) as int,
                s.len() as int,
            ) =~= s);
        }
        (a, b)
    }
}

/// Trivia round trip: for a source text that parses, there are source spans
/// `a[k]..b[k]`, one per declaration and in order, such that each
/// declaration's prefix trivia, written back, is exactly the text between the
/// previous span (or the start) and its own, and the trailing trivia is
/// exactly the text after the last span. Prefixes, declaration texts and the
/// trailing trivia, joined in order, give back the source.
pub proof fn trivia_round_trip(s: Seq<char>)
    ensures
        parse_source(s) matches Ok(u) ==> exists|a: Seq<nat>, b: Seq<nat>|
            spans_fit(s, u.decls, u.suffix, a, b) && #[trigger] rejoin(
                s,
                u.decls,
                a,
                b,
                u.decls.len() as int,
            ) + skip_text(u.suffix) == s,
{
    lemma_lex_from(s, start_pos(), 0);
    if tokens(s)[0] is Tok {
        let e = Seq::<nat>::empty();
        assert(s.subrange(0, 0) =~= Seq::<char>::empty());
        let r = lemma_decls_spans(s, 0, Seq::empty(), Seq::empty(), e, e);
        if let Ok(u) = parse_source(s) {
            assert(spans_fit(s, u.decls, u.suffix, r.0, r.1));
        }
    }
}

} // verus!
