use vstd::prelude::*;
use crate::ast::{
    decimal, decl_types_sane, fields_view, find_version, latest_handle, push_skip, skip_text,
    ApiDefn, ApiM, Apis, BaseM, BaseType, ConstDecl, Decl, DeclM, Field, FieldM, FuncDecl,
    OpaqueDecl, RetM, ReturnType, StructDecl, TriviaM, Type, TypeM,
};
use crate::emit::Options;
use crate::text::push_decimal;

verus! {

broadcast use vstd::string::group_string_axioms;

pub const PREAMBLE: &'static str = "\
/*******************************************************************************
 * Autogenerated by Dandiya API Generator
 ******************************************************************************/
#![allow(dead_code)]

";

pub const POSTAMBLE: &'static str = "";

pub const API_HEADER: &'static str = "
/*******************************************************************************
 * API Inlines
 ******************************************************************************/
";

pub open spec fn base_text(b: BaseM) -> Seq<char> {
    match b {
        BaseM::Named(n) => n,
        BaseM::U8 => "u8"@,
        BaseM::I8 => "i8"@,
        BaseM::U16 => "u16"@,
        BaseM::I16 => "i16"@,
        BaseM::U32 => "u32"@,
        BaseM::I32 => "i32"@,
        BaseM::U64 => "u64"@,
        BaseM::I64 => "i64"@,
    }
}

/// Pointers become raw mutable pointers, arrays fixed-length arrays.
pub open spec fn type_text(t: TypeM) -> Seq<char>
    decreases t,
{
    match t {
        TypeM::Pointer(sub) => "*mut "@ + type_text(*sub),
        TypeM::Array(sub, len) => "["@ + type_text(*sub) + "; "@ + decimal(len as nat) + "]"@,
        TypeM::Base(b) => base_text(b),
    }
}

pub open spec fn ret_text(r: RetM) -> Seq<char> {
    match r {
        RetM::Void => Seq::empty(),
        RetM::Value(t) => " -> "@ + type_text(t),
    }
}

pub open spec fn arg_text(f: FieldM) -> Seq<char> {
    f.name + ": "@ + type_text(f.typ)
}

/// `name: type` for each argument, separated by `, `.
pub open spec fn args_text(fs: Seq<FieldM>) -> Seq<char>
    decreases fs.len(),
{
    if fs.len() == 0 {
        Seq::empty()
    } else if fs.len() == 1 {
        arg_text(fs[0])
    } else {
        args_text(fs.drop_last()) + ", "@ + arg_text(fs.last())
    }
}

/// The argument names, separated by `, `, as passed on in a call.
pub open spec fn call_text(fs: Seq<FieldM>) -> Seq<char>
    decreases fs.len(),
{
    if fs.len() == 0 {
        Seq::empty()
    } else if fs.len() == 1 {
        fs[0].name
    } else {
        call_text(fs.drop_last()) + ", "@ + fs.last().name
    }
}

pub open spec fn members_text(fs: Seq<FieldM>) -> Seq<char>
    decreases fs.len(),
{
    if fs.len() == 0 {
        Seq::empty()
    } else {
        members_text(fs.drop_last()) + "  pub "@ + fs.last().name + ": "@ + type_text(fs.last().typ)
            + ",\n"@
    }
}

/// One declaration with the trivia before it.
pub open spec fn decl_text(d: DeclM) -> Seq<char> {
    match d {
        DeclM::Fn { prefix, name, args, ret, version } => skip_text(prefix)
            + "extern \"C\" { pub fn "@ + name + "_v"@ + decimal(version as nat) + "("@ + args_text(
            args,
        ) + ")"@ + ret_text(ret) + "; }"@,
        DeclM::Struct { prefix, name, fields } => skip_text(prefix) + "#[repr(C)]\n"@
            + "pub struct "@ + name + " {\n"@ + members_text(fields) + "}"@,
        DeclM::Opaque { prefix, name } => skip_text(prefix) + "#[repr(C)]\n"@ + "pub struct "@
            + name + " {_opaque_data: [u8; 0]}"@,
        DeclM::Const { prefix, name, value } => skip_text(prefix) + "pub const "@ + name
            + ": u64 = "@ + decimal(value as nat) + ";"@,
    }
}

pub open spec fn decls_text(ds: Seq<DeclM>) -> Seq<char>
    decreases ds.len(),
{
    if ds.len() == 0 {
        Seq::empty()
    } else {
        decls_text(ds.drop_last()) + decl_text(ds.last())
    }
}

/// The wrapper for one function: its base name, the signature of its latest
/// version, and a call of that version. Nothing when the registry entry does
/// not lead to a function declaration.
pub open spec fn forward_text(api: ApiM, ds: Seq<DeclM>) -> Seq<char> {
    let h = latest_handle(api);
    if find_version(api.versions, api.latest) is Some && h < ds.len() {
        match ds[h as int] {
            DeclM::Fn { name, args, ret, version, .. } => "pub unsafe fn "@ + name + "("@
                + args_text(args) + ")"@ + ret_text(ret) + " { "@ + name + "_v"@ + decimal(
                version as nat,
            ) + "("@ + call_text(args) + ") }\n"@,
            _ => Seq::empty(),
        }
    } else {
        Seq::empty()
    }
}

pub open spec fn forwards_text(reg: Seq<ApiM>, ds: Seq<DeclM>) -> Seq<char>
    decreases reg.len(),
{
    if reg.len() == 0 {
        Seq::empty()
    } else {
        forwards_text(reg.drop_last(), ds) + forward_text(reg.last(), ds)
    }
}

/// The whole bindings module.
pub open spec fn module_text(ds: Seq<DeclM>, reg: Seq<ApiM>, suffix: Seq<TriviaM>, options: Options) -> Seq<char> {
    PREAMBLE@ + decls_text(ds) + skip_text(suffix) + (if options.api_forward_to_latest {
        API_HEADER@ + forwards_text(reg, ds)
    } else {
        Seq::empty()
    }) + POSTAMBLE@
}

fn push_type(out: &mut String, t: &Type)
    ensures
        final(out)@ == old(out)@ + type_text(t@),
    decreases t,
{
    match t {
        Type::Pointer(subtype) => {
            out.append("*mut ");
            push_type(out, subtype);
        },
        Type::Array(subtype, len) => {
            out.append("[");
            push_type(out, subtype);
            out.append("; ");
            push_decimal(out, *len as u128);
            out.append("]");
        },
        Type::Base(base) => match base {
            BaseType::Struct(s) => out.append(s.as_str()),
            BaseType::U8 => out.append("u8"),
            BaseType::I8 => out.append("i8"),
            BaseType::U16 => out.append("u16"),
            BaseType::I16 => out.append("i16"),
            BaseType::U32 => out.append("u32"),
            BaseType::I32 => out.append("i32"),
            BaseType::U64 => out.append("u64"),
            BaseType::I64 => out.append("i64"),
        },
    }
}

/// The type as a string.
fn type_str(t: &Type) -> (r: String)
    ensures
        r@ == type_text(t@),
{
    let mut s = String::new();
    push_type(&mut s, t);
    s
}

fn push_ret(out: &mut String, t: &ReturnType)
    ensures
        final(out)@ == old(out)@ + ret_text(t@),
{
    match t {
        ReturnType::Void => {},
        ReturnType::Value(t) => {
            out.append(" -> ");
            push_type(out, t);
        },
    }
}

fn push_args(out: &mut String, args: &Vec<Field>)
    ensures
        final(out)@ == old(out)@ + args_text(fields_view(args@)),
{
    let ghost fs = fields_view(args@);
    let mut i: usize = 0;
    while i < args.len()
        invariant
            i <= args@.len(),
            fs == fields_view(args@),
            out@ == old(out)@ + args_text(fs.take(i as int)),
        decreases args@.len() - i,
    {
        if i > 0 {
            out.append(", ");
        }
        out.append(args[i].name.as_str());
        out.append(": ");
        push_type(out, &args[i].typ);
        proof {
            assert(fs.take(i + 1).drop_last() =~= fs.take(i as int));
            assert(fs.take(i + 1).last() == args@[i as int]@);
            if i == 0 {
                assert(fs.take(1) =~= seq![fs[0]]);
            }
        }
        i = i + 1;
    }
    assert(fs.take(i as int) =~= fs);
}

fn push_call(out: &mut String, args: &Vec<Field>)
    ensures
        final(out)@ == old(out)@ + call_text(fields_view(args@)),
{
    let ghost fs = fields_view(args@);
    let mut i: usize = 0;
    while i < args.len()
        invariant
            i <= args@.len(),
            fs == fields_view(args@),
            out@ == old(out)@ + call_text(fs.take(i as int)),
        decreases args@.len() - i,
    {
        if i > 0 {
            out.append(", ");
        }
        out.append(args[i].name.as_str());
        proof {
            assert(fs.take(i + 1).drop_last() =~= fs.take(i as int));
            assert(fs.take(i + 1).last() == args@[i as int]@);
            if i == 0 {
                assert(fs.take(1) =~= seq![fs[0]]);
            }
        }
        i = i + 1;
    }
    assert(fs.take(i as int) =~= fs);
}

fn emit_fn(out: &mut String, decl: &FuncDecl)
    ensures
        final(out)@ == old(out)@ + decl_text(Decl::Fn(*decl)@),
{
    let ghost start = out@;
    push_skip(out, &decl.prefix);
    out.append("extern \"C\" { pub fn ");
    out.append(decl.name.as_str());
    out.append("_v");
    push_decimal(out, decl.version.0 as u128);
    out.append("(");
    push_args(out, &decl.args);
    out.append(")");
    push_ret(out, &decl.ret);
    out.append("; }");
    assert(out@ =~= start + decl_text(Decl::Fn(*decl)@));
}

fn emit_struct(out: &mut String, decl: &StructDecl)
    ensures
        final(out)@ == old(out)@ + decl_text(Decl::Struct(*decl)@),
{
    let ghost start = out@;
    push_skip(out, &decl.prefix);
    out.append("#[repr(C)]\n");
    out.append("pub struct ");
    out.append(decl.name.as_str());
    out.append(" {\n");
    let ghost head = out@;
    let ghost fs = fields_view(decl.fields@);
    let mut i: usize = 0;
    while i < decl.fields.len()
        invariant
            i <= decl.fields@.len(),
            fs == fields_view(decl.fields@),
            out@ == head + members_text(fs.take(i as int)),
        decreases decl.fields@.len() - i,
    {
        out.append("  pub ");
        out.append(decl.fields[i].name.as_str());
        out.append(": ");
        push_type(out, &decl.fields[i].typ);
        out.append(",\n");
        proof {
            assert(fs.take(i + 1).drop_last() =~= fs.take(i as int));
        }
        i = i + 1;
    }
    assert(fs.take(i as int) =~= fs);
    out.append("}");
    assert(out@ =~= start + decl_text(Decl::Struct(*decl)@));
}

fn emit_opaque(out: &mut String, decl: &OpaqueDecl)
    ensures
        final(out)@ == old(out)@ + decl_text(Decl::Opaque(*decl)@),
{
    let ghost start = out@;
    push_skip(out, &decl.prefix);
    out.append("#[repr(C)]\n");
    out.append("pub struct ");
    out.append(decl.name.as_str());
    out.append(" {_opaque_data: [u8; 0]}");
    assert(out@ =~= start + decl_text(Decl::Opaque(*decl)@));
}

fn emit_const(out: &mut String, decl: &ConstDecl)
    ensures
        final(out)@ == old(out)@ + decl_text(Decl::Const(*decl)@),
{
    let ghost start = out@;
    push_skip(out, &decl.prefix);
    out.append("pub const ");
    out.append(decl.name.as_str());
    out.append(": u64 = ");
    push_decimal(out, decl.val as u128);
    out.append(";");
    assert(out@ =~= start + decl_text(Decl::Const(*decl)@));
}

fn emit_apis(out: &mut String, apis: &Apis, decls: &Vec<Decl>)
    ensures
        final(out)@ == old(out)@ + API_HEADER@ + forwards_text(
            apis@,
            decls@.map_values(|d: Decl| d@),
        ),
{
    let ghost ds = decls@.map_values(|d: Decl| d@);
    let ghost reg = apis@;
    out.append(API_HEADER);
    let ghost head = out@;
    let mut i: usize = 0;
    while i < apis.apis.len()
        invariant
            i <= apis.apis@.len(),
            reg == apis@,
            ds == decls@.map_values(|d: Decl| d@),
            out@ == head + forwards_text(reg.take(i as int), ds),
        decreases apis.apis@.len() - i,
    {
        let ghost before = out@;
        assert(reg[i as int] == apis.apis@[i as int]@);
        proof {
            crate::ast::lemma_find_version_in_range(reg[i as int].versions, reg[i as int].latest);
        }
        if let Some(h) = apis.apis[i].find_latest() {
            if h < decls.len() {
                if let Decl::Fn(decl) = &decls[h] {
                out.append("pub unsafe fn ");
                out.append(decl.name.as_str());
                out.append("(");
                push_args(out, &decl.args);
                out.append(")");
                push_ret(out, &decl.ret);
                out.append(" { ");
                out.append(decl.name.as_str());
                out.append("_v");
                push_decimal(out, decl.version.0 as u128);
                out.append("(");
                push_call(out, &decl.args);
                out.append(") }\n");
                }
            }
        }
        proof {
            assert(reg.take(i + 1).drop_last() =~= reg.take(i as int));
            assert(out@ =~= before + forward_text(reg[i as int], ds));
        }
        i = i + 1;
    }
    assert(reg.take(i as int) =~= reg);
}

/// Appends the bindings module for `defn`.
pub fn emit(out: &mut String, defn: &ApiDefn, options: Options)
    requires
        forall|k: int| 0 <= k < defn.decls@.len() ==> decl_types_sane(#[trigger] defn.decls@[k]@),
    ensures
        final(out)@ == old(out)@ + module_text(
            defn.unit().decls,
            defn.unit().registry,
            defn.unit().suffix,
            options,
        ),
{
    let ghost start = out@;
    let ghost ds = defn.unit().decls;
    out.append(PREAMBLE);
    let ghost head = out@;
    let mut i: usize = 0;
    while i < defn.decls.len()
        invariant
            i <= defn.decls@.len(),
            ds == defn.unit().decls,
            out@ == head + decls_text(ds.take(i as int)),
        decreases defn.decls@.len() - i,
    {
        match &defn.decls[i] {
            Decl::Fn(decl) => emit_fn(out, decl),
            Decl::Struct(decl) => emit_struct(out, decl),
            Decl::Opaque(decl) => emit_opaque(out, decl),
            Decl::Const(decl) => emit_const(out, decl),
        }
        proof {
            assert(ds.take(i + 1).drop_last() =~= ds.take(i as int));
        }
        i = i + 1;
    }
    assert(ds.take(i as int) =~= ds);
    push_skip(out, &defn.suffix);
    // emit api forwarding
    if options.api_forward_to_latest {
        emit_apis(out, &defn.apis, &defn.decls);
    }
    out.append(POSTAMBLE);
    assert(out@ =~= start + module_text(
        defn.unit().decls,
        defn.unit().registry,
        defn.unit().suffix,
        options,
    ));
}

} // verus!
