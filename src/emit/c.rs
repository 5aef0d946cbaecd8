use vstd::prelude::*;
use crate::ast::{
    decimal, decl_types_sane, fields_view, push_skip, skip_text, ApiDefn, BaseM, BaseType,
    ConstDecl, Decl, DeclM, Field, FieldM, FuncDecl, OpaqueDecl, RetM, ReturnType, StructDecl, Type,
    TypeM,
};
use crate::emit::Options;
use crate::text::push_decimal;

verus! {

broadcast use vstd::string::group_string_axioms;

pub const PREAMBLE: &'static str = "\
#pragma once
#include <stdint.h>

#ifndef DANDIYA_API_EXPORT
#define DANDIYA_API_EXPORT
#endif

#ifdef __cplusplus
extern \"C\" {
#endif
";

pub const POSTAMBLE: &'static str = "
#ifdef __cplusplus
}
#endif
";

pub open spec fn base_text(b: BaseM) -> Seq<char> {
    match b {
        BaseM::Named(n) => n + "_t"@,
        BaseM::U8 => "uint8_t"@,
        BaseM::I8 => "int8_t"@,
        BaseM::U16 => "uint16_t"@,
        BaseM::I16 => "int16_t"@,
        BaseM::U32 => "uint32_t"@,
        BaseM::I32 => "int32_t"@,
        BaseM::U64 => "uint64_t"@,
        BaseM::I64 => "int64_t"@,
    }
}

/// A C type split around the declared name: what goes before it (the base
/// and the pointer stars) and what goes after it (the array dimensions).
pub open spec fn type_text(t: TypeM) -> (Seq<char>, Seq<char>)
    decreases t,
{
    match t {
        TypeM::Pointer(sub) => {
            let (front, back) = type_text(*sub);
            (front + "*"@, back)
        },
        TypeM::Array(sub, len) => {
            let (front, back) = type_text(*sub);
            (front, back + "["@ + decimal(len as nat) + "]"@)
        },
        TypeM::Base(b) => (base_text(b), Seq::empty()),
    }
}

/// `{front} {name}{back}`
pub open spec fn field_text(f: FieldM) -> Seq<char> {
    type_text(f.typ).0 + " "@ + f.name + type_text(f.typ).1
}

pub open spec fn ret_text(r: RetM) -> Seq<char> {
    match r {
        RetM::Void => "void"@,
        RetM::Value(t) => type_text(t).0 + type_text(t).1,
    }
}

/// The fields, separated by `, `.
pub open spec fn field_list(fs: Seq<FieldM>) -> Seq<char>
    decreases fs.len(),
{
    if fs.len() == 0 {
        Seq::empty()
    } else if fs.len() == 1 {
        field_text(fs[0])
    } else {
        field_list(fs.drop_last()) + ", "@ + field_text(fs.last())
    }
}

/// An argument list; `void` when there are none, as C asks.
pub open spec fn args_text(fs: Seq<FieldM>) -> Seq<char> {
    if fs.len() == 0 {
        "void"@
    } else {
        field_list(fs)
    }
}

/// The members of a struct body, one per line.
pub open spec fn members_text(fs: Seq<FieldM>) -> Seq<char>
    decreases fs.len(),
{
    if fs.len() == 0 {
        Seq::empty()
    } else {
        members_text(fs.drop_last()) + "  "@ + field_text(fs.last()) + ";\n"@
    }
}

pub open spec fn typedef_text(name: Seq<char>) -> Seq<char> {
    "typedef struct "@ + name + " "@ + name + "_t;"@
}

/// Does the type refer to the struct or opaque type `n`?
pub open spec fn type_uses(t: TypeM, n: Seq<char>) -> bool
    decreases t,
{
    match t {
        TypeM::Pointer(sub) => type_uses(*sub, n),
        TypeM::Array(sub, _) => type_uses(*sub, n),
        TypeM::Base(BaseM::Named(m)) => m == n,
        TypeM::Base(_) => false,
    }
}

pub open spec fn fields_use(fs: Seq<FieldM>, n: Seq<char>) -> bool {
    exists|i: int| 0 <= i < fs.len() && type_uses(#[trigger] fs[i].typ, n)
}

/// Does the declaration refer to the struct or opaque type `n`?
pub open spec fn decl_uses(d: DeclM, n: Seq<char>) -> bool {
    match d {
        DeclM::Fn { args, ret, .. } => fields_use(args, n) || (ret matches RetM::Value(t)
            && type_uses(t, n)),
        DeclM::Struct { fields, .. } => fields_use(fields, n),
        _ => false,
    }
}

/// The type a struct or opaque declaration introduces.
pub open spec fn type_decl_name(d: DeclM) -> Option<Seq<char>> {
    match d {
        DeclM::Struct { name, .. } => Some(name),
        DeclM::Opaque { name, .. } => Some(name),
        _ => None,
    }
}

/// Declaration `j` introduces a type that an earlier declaration uses; its
/// typedef is then written in the first pass, ahead of every declaration.
pub open spec fn used_early(ds: Seq<DeclM>, j: int) -> bool {
    type_decl_name(ds[j]) matches Some(n) && exists|k: int| 0 <= k < j && decl_uses(#[trigger] ds[k], n)
}

/// The first pass: a forward typedef for each type of `ds[..n]` used before
/// its declaration, in declaration order.
pub open spec fn forwards_text(ds: Seq<DeclM>, n: int) -> Seq<char>
    decreases n,
{
    if n <= 0 {
        Seq::empty()
    } else {
        forwards_text(ds, n - 1) + if used_early(ds, n - 1) {
            typedef_text(type_decl_name(ds[n - 1])->0) + "\n"@
        } else {
            Seq::empty()
        }
    }
}

/// One declaration with the trivia before it. A struct or opaque type that
/// was forward-declared (`fwd`) gets no second typedef.
pub open spec fn decl_text(d: DeclM, export: bool, fwd: bool) -> Seq<char> {
    match d {
        DeclM::Fn { prefix, name, args, ret, version } => skip_text(prefix) + (if export {
            "DANDIYA_API_EXPORT "@
        } else {
            Seq::empty()
        }) + ret_text(ret) + " "@ + name + "_v"@ + decimal(version as nat) + "("@ + args_text(args)
            + ");"@,
        DeclM::Struct { prefix, name, fields } => skip_text(prefix) + (if fwd {
            Seq::empty()
        } else {
            typedef_text(name) + "\n"@
        }) + "struct "@ + name + " {\n"@ + members_text(fields) + "};"@,
        DeclM::Opaque { prefix, name } => skip_text(prefix) + (if fwd {
            Seq::empty()
        } else {
            typedef_text(name)
        }),
        DeclM::Const { prefix, name, value } => skip_text(prefix) + "#define "@ + name
            + " ((uint64_t)("@ + decimal(value as nat) + "))"@,
    }
}

/// The second pass over `ds[..n]`, in source order.
pub open spec fn decls_text(ds: Seq<DeclM>, n: int, export: bool) -> Seq<char>
    decreases n,
{
    if n <= 0 {
        Seq::empty()
    } else {
        decls_text(ds, n - 1, export) + decl_text(ds[n - 1], export, used_early(ds, n - 1))
    }
}

/// The whole header.
pub open spec fn header_text(ds: Seq<DeclM>, suffix: Seq<crate::ast::TriviaM>, options: Options) -> Seq<char> {
    PREAMBLE@ + forwards_text(ds, ds.len() as int) + decls_text(ds, ds.len() as int, options.c_export_api)
        + skip_text(suffix) + POSTAMBLE@
}

proof fn lemma_forwards_hold(ds: Seq<DeclM>, n: int, j: int)
    requires
        0 <= j < n <= ds.len(),
        used_early(ds, j),
    ensures
        exists|a: Seq<char>, b: Seq<char>|
            forwards_text(ds, n) == a + (typedef_text(type_decl_name(ds[j])->0) + "\n"@) + b,
    decreases n,
{
    let t = typedef_text(type_decl_name(ds[j])->0) + "\n"@;
    if j == n - 1 {
        let a = forwards_text(ds, n - 1);
        assert(forwards_text(ds, n) == a + t + Seq::<char>::empty());
    } else {
        lemma_forwards_hold(ds, n - 1, j);
        let (a, b) = choose|a: Seq<char>, b: Seq<char>| forwards_text(ds, n - 1) == a + t + b;
        let x = if used_early(ds, n - 1) {
            typedef_text(type_decl_name(ds[n - 1])->0) + "\n"@
        } else {
            Seq::empty()
        };
        assert(forwards_text(ds, n) =~= a + t + (b + x));
    }
}

/// Every use of a struct or opaque type comes after its typedef. A type used
/// before its declaration is forward-declared in the first pass, which
/// precedes every declaration. Any other type is used only from its own
/// declaration on, and that declaration opens, after its trivia, with the
/// typedef.
pub proof fn typedefs_precede_uses(ds: Seq<DeclM>, j: int, k: int, n: Seq<char>, export: bool)
    requires
        0 <= j < ds.len(),
        0 <= k < ds.len(),
        type_decl_name(ds[j]) == Some(n),
        decl_uses(ds[k], n),
    ensures
        used_early(ds, j) ==> exists|a: Seq<char>, b: Seq<char>|
            forwards_text(ds, ds.len() as int) == a + (typedef_text(n) + "\n"@) + b,
        !used_early(ds, j) ==> j <= k && decl_text(ds[j], export, false).take(
            (skip_text(crate::ast::decl_prefix(ds[j])).len() + typedef_text(n).len()) as int,
        ) == skip_text(crate::ast::decl_prefix(ds[j])) + typedef_text(n),
{
    if used_early(ds, j) {
        lemma_forwards_hold(ds, ds.len() as int, j);
    } else {
        if k < j {
            assert(used_early(ds, j));
        }
        let d = decl_text(ds[j], export, false);
        let p = skip_text(crate::ast::decl_prefix(ds[j]));
        assert(d.take((p.len() + typedef_text(n).len()) as int) =~= p + typedef_text(n));
    }
}

// Returns (front-part, back-part)
fn type_str(t: &Type) -> (r: (String, String))
    ensures
        r.0@ == type_text(t@).0,
        r.1@ == type_text(t@).1,
    decreases t,
{
    match t {
        Type::Pointer(subtype) => {
            let (mut front, back) = type_str(subtype);
            front.append("*");
            (front, back)
        },
        Type::Array(subtype, len) => {
            let (front, mut back) = type_str(subtype);
            back.append("[");
            push_decimal(&mut back, *len as u128);
            back.append("]");
            (front, back)
        },
        Type::Base(base) => {
            let s = match base {
                BaseType::Struct(s) => {
                    let mut n = s.clone();
                    n.append("_t");
                    n
                },
                BaseType::U8 => String::from_str("uint8_t"),
                BaseType::I8 => String::from_str("int8_t"),
                BaseType::U16 => String::from_str("uint16_t"),
                BaseType::I16 => String::from_str("int16_t"),
                BaseType::U32 => String::from_str("uint32_t"),
                BaseType::I32 => String::from_str("int32_t"),
                BaseType::U64 => String::from_str("uint64_t"),
                BaseType::I64 => String::from_str("int64_t"),
            };
            (s, String::new())
        },
    }
}

fn push_field(out: &mut String, f: &Field)
    ensures
        final(out)@ == old(out)@ + field_text(f@),
{
    let (front, back) = type_str(&f.typ);
    out.append(front.as_str());
    out.append(" ");
    out.append(f.name.as_str());
    out.append(back.as_str());
}

fn push_ret(out: &mut String, t: &ReturnType)
    ensures
        final(out)@ == old(out)@ + ret_text(t@),
{
    match t {
        ReturnType::Void => out.append("void"),
        ReturnType::Value(t) => {
            let (f, b) = type_str(t);
            out.append(f.as_str());
            out.append(b.as_str());
        },
    }
}

fn push_args(out: &mut String, args: &Vec<Field>)
    ensures
        final(out)@ == old(out)@ + args_text(fields_view(args@)),
{
    let ghost fs = fields_view(args@);
    // quirky C: empty args is (void)
    if args.len() == 0 {
        out.append("void");
        return;
    }
    let mut i: usize = 0;
    while i < args.len()
        invariant
            0 < args@.len(),
            i <= args@.len(),
            fs == fields_view(args@),
            out@ == old(out)@ + field_list(fs.take(i as int)),
        decreases args@.len() - i,
    {
        if i > 0 {
            out.append(", ");
        }
        push_field(out, &args[i]);
        proof {
            assert(fs.take(i + 1).drop_last() =~= fs.take(i as int));
            assert(fs.take(i + 1).last() == args@[i as int]@);
            if i == 0 {
                assert(fs.take(1) =~= seq![fs[0]]);
            }
        }
        i = i + 1;
    }
    assert(fs.take(i as int) =~= fs);
}

fn emit_fn(out: &mut String, decl: &FuncDecl, export: bool)
    ensures
        final(out)@ == old(out)@ + decl_text(Decl::Fn(*decl)@, export, false),
{
    let ghost start = out@;
    push_skip(out, &decl.prefix);
    if export {
        out.append("DANDIYA_API_EXPORT ");
    }
    push_ret(out, &decl.ret);
    out.append(" ");
    out.append(decl.name.as_str());
    out.append("_v");
    push_decimal(out, decl.version.0 as u128);
    out.append("(");
    push_args(out, &decl.args);
    out.append(");");
    assert(out@ =~= start + decl_text(Decl::Fn(*decl)@, export, false));
}

fn push_typedef(out: &mut String, name: &String)
    ensures
        final(out)@ == old(out)@ + typedef_text(name@),
{
    out.append("typedef struct ");
    out.append(name.as_str());
    out.append(" ");
    out.append(name.as_str());
    out.append("_t;");
}

fn emit_struct(out: &mut String, decl: &StructDecl, fwd: bool)
    ensures
        final(out)@ == old(out)@ + decl_text(Decl::Struct(*decl)@, false, fwd),
{
    let ghost start = out@;
    push_skip(out, &decl.prefix);
    if !fwd {
        push_typedef(out, &decl.name);
        out.append("\n");
    }
    out.append("struct ");
    out.append(decl.name.as_str());
    out.append(" {\n");
    let ghost head = out@;
    let ghost fs = fields_view(decl.fields@);
    let mut i: usize = 0;
    while i < decl.fields.len()
        invariant
            i <= decl.fields@.len(),
            fs == fields_view(decl.fields@),
            out@ == head + members_text(fs.take(i as int)),
        decreases decl.fields@.len() - i,
    {
        out.append("  ");
        push_field(out, &decl.fields[i]);
        out.append(";\n");
        proof {
            assert(fs.take(i + 1).drop_last() =~= fs.take(i as int));
        }
        i = i + 1;
    }
    assert(fs.take(i as int) =~= fs);
    out.append("};");
    assert(out@ =~= start + decl_text(Decl::Struct(*decl)@, false, fwd));
}

fn emit_opaque(out: &mut String, decl: &OpaqueDecl, fwd: bool)
    ensures
        final(out)@ == old(out)@ + decl_text(Decl::Opaque(*decl)@, false, fwd),
{
    let ghost start = out@;
    push_skip(out, &decl.prefix);
    if !fwd {
        push_typedef(out, &decl.name);
    }
    assert(out@ =~= start + decl_text(Decl::Opaque(*decl)@, false, fwd));
}

fn emit_const(out: &mut String, decl: &ConstDecl)
    ensures
        final(out)@ == old(out)@ + decl_text(Decl::Const(*decl)@, false, false),
{
    let ghost start = out@;
    push_skip(out, &decl.prefix);
    out.append("#define ");
    out.append(decl.name.as_str());
    out.append(" ((uint64_t)(");
    push_decimal(out, decl.val as u128);
    out.append("))");
    assert(out@ =~= start + decl_text(Decl::Const(*decl)@, false, false));
}

fn type_uses_name(t: &Type, n: &String) -> (r: bool)
    ensures
        r == type_uses(t@, n@),
    decreases t,
{
    match t {
        Type::Pointer(sub) => type_uses_name(sub, n),
        Type::Array(sub, _) => type_uses_name(sub, n),
        Type::Base(BaseType::Struct(m)) => *m == *n,
        Type::Base(_) => false,
    }
}

fn fields_use_name(fs: &Vec<Field>, n: &String) -> (r: bool)
    ensures
        r == fields_use(fields_view(fs@), n@),
{
    let ghost v = fields_view(fs@);
    let mut i: usize = 0;
    while i < fs.len()
        invariant
            i <= fs@.len(),
            v == fields_view(fs@),
            forall|m: int| 0 <= m < i ==> !type_uses(#[trigger] v[m].typ, n@),
        decreases fs@.len() - i,
    {
        if type_uses_name(&fs[i].typ, n) {
            assert(v[i as int].typ == fs@[i as int].typ@);
            return true;
        }
        i = i + 1;
    }
    false
}

fn decl_uses_name(d: &Decl, n: &String) -> (r: bool)
    ensures
        r == decl_uses(d@, n@),
{
    match d {
        Decl::Fn(f) => fields_use_name(&f.args, n) || match &f.ret {
            ReturnType::Value(t) => type_uses_name(t, n),
            ReturnType::Void => false,
        },
        Decl::Struct(s) => fields_use_name(&s.fields, n),
        _ => false,
    }
}

/// Is declaration `j` a type that an earlier declaration uses?
fn is_used_early(decls: &Vec<Decl>, j: usize) -> (r: Option<&String>)
    requires
        j < decls@.len(),
    ensures
        used_early(decls@.map_values(|d: Decl| d@), j as int) <==> r is Some,
        r matches Some(n) ==> type_decl_name(decls@[j as int]@) == Some(n@),
{
    let ghost ds = decls@.map_values(|d: Decl| d@);
    let name = match &decls[j] {
        Decl::Struct(s) => &s.name,
        Decl::Opaque(o) => &o.name,
        _ => {
            return None;
        },
    };
    let mut k: usize = 0;
    while k < j
        invariant
            k <= j < decls@.len(),
            ds == decls@.map_values(|d: Decl| d@),
            type_decl_name(ds[j as int]) == Some(name@),
            forall|m: int| 0 <= m < k ==> !decl_uses(#[trigger] ds[m], name@),
        decreases j - k,
    {
        if decl_uses_name(&decls[k], name) {
            assert(decl_uses(ds[k as int], name@));
            return Some(name);
        }
        k = k + 1;
    }
    None
}

/// Appends the C header for `defn`: first a typedef for each struct or
/// opaque type used before its declaration, then every declaration in source
/// order.
pub fn emit(out: &mut String, defn: &ApiDefn, options: Options)
    requires
        forall|k: int| 0 <= k < defn.decls@.len() ==> decl_types_sane(#[trigger] defn.decls@[k]@),
    ensures
        final(out)@ == old(out)@ + header_text(defn.unit().decls, defn.unit().suffix, options),
{
    let ghost start = out@;
    let ghost ds = defn.unit().decls;
    let export = options.c_export_api;
    out.append(PREAMBLE);
    let ghost head = out@;
    // pass 1: forward declarations
    let mut early: Vec<bool> = Vec::new();
    let mut j: usize = 0;
    while j < defn.decls.len()
        invariant
            j <= defn.decls@.len(),
            ds == defn.unit().decls,
            early@.len() == j,
            forall|m: int| 0 <= m < j ==> early@[m] == used_early(ds, m),
            out@ == head + forwards_text(ds, j as int),
        decreases defn.decls@.len() - j,
    {
        let fwd = is_used_early(&defn.decls, j);
        match fwd {
            Some(name) => {
                push_typedef(out, name);
                out.append("\n");
                early.push(true);
            },
            None => {
                early.push(false);
            },
        }
        j = j + 1;
    }
    let ghost mid = out@;
    // pass 2: the declarations
    let mut i: usize = 0;
    while i < defn.decls.len()
        invariant
            i <= defn.decls@.len(),
            ds == defn.unit().decls,
            export == options.c_export_api,
            early@.len() == defn.decls@.len(),
            forall|m: int| 0 <= m < early@.len() ==> early@[m] == used_early(ds, m),
            out@ == mid + decls_text(ds, i as int, export),
        decreases defn.decls@.len() - i,
    {
        let fwd = early[i];
        match &defn.decls[i] {
            Decl::Fn(decl) => emit_fn(out, decl, export),
            Decl::Struct(decl) => emit_struct(out, decl, fwd),
            Decl::Opaque(decl) => emit_opaque(out, decl, fwd),
            Decl::Const(decl) => emit_const(out, decl),
        }
        i = i + 1;
    }
    push_skip(out, &defn.suffix);
    out.append(POSTAMBLE);
    assert(out@ =~= start + header_text(defn.unit().decls, defn.unit().suffix, options));
}

} // verus!
