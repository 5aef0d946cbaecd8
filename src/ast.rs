use vstd::prelude::*;
use crate::grammar::UnitM;
use crate::text::push_decimal;

verus! {

// ---------------------------------------------------------------------------
// Mathematical model of the declaration tree
// ---------------------------------------------------------------------------

/// One piece of trivia, as text.
pub enum TriviaM {
    Whitespace(Seq<char>),
    LineComment(Seq<char>),
    BlockComment(Seq<char>),
}

/// A base type: a fixed-width integer or a reference to a struct/opaque by name.
pub enum BaseM {
    Named(Seq<char>),
    U8,
    I8,
    U16,
    I16,
    U32,
    I32,
    U64,
    I64,
}

pub enum TypeM {
    Pointer(Box<TypeM>),
    Array(Box<TypeM>, u64),
    Base(BaseM),
}

pub struct FieldM {
    pub name: Seq<char>,
    pub typ: TypeM,
}

pub enum RetM {
    Void,
    Value(TypeM),
}

pub enum DeclM {
    Fn { prefix: Seq<TriviaM>, name: Seq<char>, args: Seq<FieldM>, ret: RetM, version: u64 },
    Struct { prefix: Seq<TriviaM>, name: Seq<char>, fields: Seq<FieldM> },
    Opaque { prefix: Seq<TriviaM>, name: Seq<char> },
    Const { prefix: Seq<TriviaM>, name: Seq<char>, value: u64 },
}

/// One entry of the version registry: a base function name, its latest
/// version, and each registered version with the index of its declaration.
pub struct ApiM {
    pub name: Seq<char>,
    pub latest: u64,
    pub versions: Seq<(u64, nat)>,
}

/// The decimal digits of `n`, most significant first.
pub open spec fn decimal(n: nat) -> Seq<char>
    decreases n,
{
    if n < 10 {
        seq![digit_char(n)]
    } else {
        decimal(n / 10) + seq![digit_char(n % 10)]
    }
}

pub open spec fn digit_char(d: nat) -> char {
    ((d + 48) as u32) as char
}

/// Trivia written back as source text.
pub open spec fn trivia_text(t: TriviaM) -> Seq<char> {
    match t {
        TriviaM::Whitespace(w) => w,
        TriviaM::LineComment(c) => "//"@ + c,
        TriviaM::BlockComment(c) => "/*"@ + c + "*/"@,
    }
}

/// A trivia run written back as source text.
pub open spec fn skip_text(sk: Seq<TriviaM>) -> Seq<char>
    decreases sk.len(),
{
    if sk.len() == 0 {
        Seq::empty()
    } else {
        skip_text(sk.drop_last()) + trivia_text(sk.last())
    }
}

/// The uniqueness key of a declaration: `{name}_v{version}` for a function,
/// the bare name otherwise.
pub open spec fn qualified_name(d: DeclM) -> Seq<char> {
    match d {
        DeclM::Fn { name, version, .. } => name + seq!['_', 'v'] + decimal(version as nat),
        DeclM::Struct { name, .. } => name,
        DeclM::Opaque { name, .. } => name,
        DeclM::Const { name, .. } => name,
    }
}

pub open spec fn decl_prefix(d: DeclM) -> Seq<TriviaM> {
    match d {
        DeclM::Fn { prefix, .. } => prefix,
        DeclM::Struct { prefix, .. } => prefix,
        DeclM::Opaque { prefix, .. } => prefix,
        DeclM::Const { prefix, .. } => prefix,
    }
}

/// Does the type, beneath any pointers, end in an array?
pub open spec fn is_array_recursively(t: TypeM) -> bool
    decreases t,
{
    match t {
        TypeM::Array(_, _) => true,
        TypeM::Pointer(sub) => is_array_recursively(*sub),
        TypeM::Base(_) => false,
    }
}

/// A type C can express: no array inside an array, no pointer to an array.
pub open spec fn is_sane_for_c(t: TypeM) -> bool {
    match t {
        TypeM::Array(sub, _) => !is_array_recursively(*sub),
        TypeM::Pointer(sub) => !is_array_recursively(*sub),
        TypeM::Base(_) => true,
    }
}

/// The type and every type nested in it is sane for C.
pub open spec fn is_sane_deep(t: TypeM) -> bool
    decreases t,
{
    is_sane_for_c(t) && match t {
        TypeM::Array(sub, _) => is_sane_deep(*sub),
        TypeM::Pointer(sub) => is_sane_deep(*sub),
        TypeM::Base(_) => true,
    }
}

pub open spec fn fields_sane(fs: Seq<FieldM>) -> bool {
    forall|k: int| 0 <= k < fs.len() ==> is_sane_deep(#[trigger] fs[k].typ)
}

/// Every type in the declaration is one C can express, and a function never
/// returns an array.
pub open spec fn decl_types_sane(d: DeclM) -> bool {
    match d {
        DeclM::Fn { args, ret, .. } => fields_sane(args) && match ret {
            RetM::Void => true,
            RetM::Value(t) => is_sane_deep(t) && !is_array_recursively(t),
        },
        DeclM::Struct { fields, .. } => fields_sane(fields),
        _ => true,
    }
}

// ---------------------------------------------------------------------------
// Registry model
// ---------------------------------------------------------------------------

/// Index of the registry entry for `name`, if there is one.
pub open spec fn find_api(reg: Seq<ApiM>, name: Seq<char>) -> Option<int>
    decreases reg.len(),
{
    if reg.len() == 0 {
        None
    } else if reg.last().name == name {
        Some(reg.len() - 1)
    } else {
        find_api(reg.drop_last(), name)
    }
}

/// Index within `vs` of an entry for version `v`, if there is one.
pub open spec fn find_version(vs: Seq<(u64, nat)>, v: u64) -> Option<int>
    decreases vs.len(),
{
    if vs.len() == 0 {
        None
    } else if vs.last().0 == v {
        Some(vs.len() - 1)
    } else {
        find_version(vs.drop_last(), v)
    }
}

/// Registering declaration `h` as version `v` of `name`: the registry after the
/// insertion, and the declaration already registered under that version, if
/// any (in which case the registry is left as it was).
pub open spec fn reg_insert(reg: Seq<ApiM>, name: Seq<char>, v: u64, h: nat) -> (Seq<ApiM>, Option<nat>) {
    match find_api(reg, name) {
        Some(k) => {
            let api = reg[k];
            match find_version(api.versions, v) {
                Some(j) => (reg, Some(api.versions[j].1)),
                None => {
                    let latest = if v > api.latest { v } else { api.latest };
                    (reg.update(k, ApiM { name, latest, versions: api.versions.push((v, h)) }), None)
                },
            }
        },
        None => (reg.push(ApiM { name, latest: v, versions: seq![(v, h)] }), None),
    }
}

// ---------------------------------------------------------------------------
// Executable declaration tree
// ---------------------------------------------------------------------------

#[derive(Debug, Clone, Copy, PartialEq, Eq, Hash, Structural)]
pub struct Version(pub u64);

#[derive(Debug)]
pub enum SkipElem {
    Whitespace(String),
    LineComment(String),
    BlockComment(String),
}

/// A run of trivia, kept verbatim.
#[derive(Debug)]
pub struct Skip(pub Vec<SkipElem>);

#[derive(Debug, PartialEq)]
pub enum BaseType {
    Struct(String),
    U8,
    I8,
    U16,
    I16,
    U32,
    I32,
    U64,
    I64,
}

#[derive(Debug, PartialEq)]
pub enum Type {
    Pointer(Box<Type>),
    Array(Box<Type>, u64),
    Base(BaseType),
}

#[derive(Debug, PartialEq)]
pub enum ReturnType {
    Void,
    Value(Type),
}

#[derive(Debug)]
pub struct Field {
    pub name: String,
    pub typ: Type,
}

#[derive(Debug)]
pub struct FuncDecl {
    pub prefix: Skip,
    pub name: String,
    pub args: Vec<Field>,
    pub ret: ReturnType,
    pub version: Version,
}

#[derive(Debug)]
pub struct StructDecl {
    pub prefix: Skip,
    pub name: String,
    pub fields: Vec<Field>,
}

#[derive(Debug)]
pub struct OpaqueDecl {
    pub prefix: Skip,
    pub name: String,
}

#[derive(Debug)]
pub struct ConstDecl {
    pub prefix: Skip,
    pub name: String,
    pub val: u64,
}

#[derive(Debug)]
pub enum Decl {
    Fn(FuncDecl),
    Struct(StructDecl),
    Opaque(OpaqueDecl),
    Const(ConstDecl),
}

/// All versions of one function, each version with the index of its
/// declaration in the unit's declaration list.
#[derive(Debug)]
pub struct Api {
    pub name: String,
    pub latest: Version,
    pub all_versions: Vec<(Version, usize)>,
}

/// The version registry: one entry per function base name, in order of first
/// appearance.
#[derive(Debug)]
pub struct Apis {
    pub apis: Vec<Api>,
}

/// A parsed compilation unit. Declarations live in `decls`, in source order;
/// the symbol table and the version registry refer to them by index.
#[derive(Debug)]
pub struct ApiDefn {
    pub symbols: Vec<(String, usize)>,
    pub apis: Apis,
    pub decls: Vec<Decl>,
    pub suffix: Skip,
}

// ---------------------------------------------------------------------------
// Views
// ---------------------------------------------------------------------------

impl View for SkipElem {
    type V = TriviaM;

    open spec fn view(&self) -> TriviaM {
        match self {
            SkipElem::Whitespace(s) => TriviaM::Whitespace(s@),
            SkipElem::LineComment(s) => TriviaM::LineComment(s@),
            SkipElem::BlockComment(s) => TriviaM::BlockComment(s@),
        }
    }
}

impl View for Skip {
    type V = Seq<TriviaM>;

    open spec fn view(&self) -> Seq<TriviaM> {
        self.0@.map_values(|e: SkipElem| e@)
    }
}

impl View for BaseType {
    type V = BaseM;

    open spec fn view(&self) -> BaseM {
        match self {
            BaseType::Struct(s) => BaseM::Named(s@),
            BaseType::U8 => BaseM::U8,
            BaseType::I8 => BaseM::I8,
            BaseType::U16 => BaseM::U16,
            BaseType::I16 => BaseM::I16,
            BaseType::U32 => BaseM::U32,
            BaseType::I32 => BaseM::I32,
            BaseType::U64 => BaseM::U64,
            BaseType::I64 => BaseM::I64,
        }
    }
}

pub open spec fn type_view(t: &Type) -> TypeM
    decreases t,
{
    match t {
        Type::Pointer(sub) => TypeM::Pointer(Box::new(type_view(sub))),
        Type::Array(sub, n) => TypeM::Array(Box::new(type_view(sub)), *n),
        Type::Base(b) => TypeM::Base(b@),
    }
}

impl View for Type {
    type V = TypeM;

    open spec fn view(&self) -> TypeM {
        type_view(self)
    }
}

impl View for ReturnType {
    type V = RetM;

    open spec fn view(&self) -> RetM {
        match self {
            ReturnType::Void => RetM::Void,
            ReturnType::Value(t) => RetM::Value(t@),
        }
    }
}

impl View for Field {
    type V = FieldM;

    open spec fn view(&self) -> FieldM {
        FieldM { name: self.name@, typ: self.typ@ }
    }
}

pub open spec fn fields_view(fs: Seq<Field>) -> Seq<FieldM> {
    fs.map_values(|f: Field| f@)
}

impl View for Decl {
    type V = DeclM;

    open spec fn view(&self) -> DeclM {
        match self {
            Decl::Fn(d) => DeclM::Fn {
                prefix: d.prefix@,
                name: d.name@,
                args: fields_view(d.args@),
                ret: d.ret@,
                version: d.version.0,
            },
            Decl::Struct(d) => DeclM::Struct {
                prefix: d.prefix@,
                name: d.name@,
                fields: fields_view(d.fields@),
            },
            Decl::Opaque(d) => DeclM::Opaque { prefix: d.prefix@, name: d.name@ },
            Decl::Const(d) => DeclM::Const { prefix: d.prefix@, name: d.name@, value: d.val },
        }
    }
}

impl View for Api {
    type V = ApiM;

    open spec fn view(&self) -> ApiM {
        ApiM {
            name: self.name@,
            latest: self.latest.0,
            versions: self.all_versions@.map_values(|p: (Version, usize)| (p.0.0, p.1 as nat)),
        }
    }
}

impl View for Apis {
    type V = Seq<ApiM>;

    open spec fn view(&self) -> Seq<ApiM> {
        self.apis@.map_values(|a: Api| a@)
    }
}


// ---------------------------------------------------------------------------
// Registry operations
// ---------------------------------------------------------------------------

/// The declaration index of the latest version of `a`.
pub open spec fn latest_handle(a: ApiM) -> nat {
    a.versions[find_version(a.versions, a.latest)->0].1
}

/// Every entry records its latest version among its versions.
pub open spec fn registry_wf(reg: Seq<ApiM>) -> bool {
    forall|k: int| 0 <= k < reg.len() ==> (#[trigger] find_version(reg[k].versions, reg[k].latest)) is Some
}

proof fn lemma_find_version_push(vs: Seq<(u64, nat)>, v: u64, h: nat, w: u64)
    ensures
        find_version(vs, w) is Some ==> find_version(vs.push((v, h)), w) is Some,
        find_version(vs.push((v, h)), v) is Some,
{
    assert(vs.push((v, h)).drop_last() =~= vs);
}

pub proof fn lemma_find_version_in_range(vs: Seq<(u64, nat)>, v: u64)
    ensures
        find_version(vs, v) matches Some(j) ==> 0 <= j < vs.len() && vs[j].0 == v,
    decreases vs.len(),
{
    if vs.len() > 0 && vs.last().0 != v {
        lemma_find_version_in_range(vs.drop_last(), v);
    }
}

pub proof fn lemma_find_api_in_range(reg: Seq<ApiM>, name: Seq<char>)
    ensures
        find_api(reg, name) matches Some(k) ==> 0 <= k < reg.len() && reg[k].name == name,
    decreases reg.len(),
{
    if reg.len() > 0 && reg.last().name != name {
        lemma_find_api_in_range(reg.drop_last(), name);
    }
}

/// Registering a version keeps every entry's latest version among its versions.
pub proof fn lemma_reg_insert_wf(reg: Seq<ApiM>, name: Seq<char>, v: u64, h: nat)
    requires
        registry_wf(reg),
    ensures
        registry_wf(reg_insert(reg, name, v, h).0),
{
    lemma_find_api_in_range(reg, name);
    let r = reg_insert(reg, name, v, h).0;
    match find_api(reg, name) {
        Some(k) => {
            let api = reg[k];
            if find_version(api.versions, v) is None {
                lemma_find_version_push(api.versions, v, h, api.latest);
                assert forall|i: int| 0 <= i < r.len() implies (#[trigger] find_version(r[i].versions, r[i].latest)) is Some by {
                    if i != k {
                        assert(find_version(reg[i].versions, reg[i].latest) is Some);
                    }
                }
            }
        },
        None => {
            assert(seq![(v, h)] =~= Seq::<(u64, nat)>::empty().push((v, h)));
            lemma_find_version_push(Seq::empty(), v, h, v);
            assert forall|i: int| 0 <= i < r.len() implies (#[trigger] find_version(r[i].versions, r[i].latest)) is Some by {
                if i < reg.len() {
                    assert(find_version(reg[i].versions, reg[i].latest) is Some);
                }
            }
        },
    }
}

impl Api {
    /// The index of the declaration of the latest version, if that version is
    /// registered.
    pub(crate) fn find_latest(&self) -> (r: Option<usize>)
        ensures
            r == (match find_version(self@.versions, self@.latest) {
                Some(j) => Some(self.all_versions@[j].1),
                None => None,
            }),
    {
        let v: u64 = self.latest.0;
        let ghost vs = self@.versions;
        let mut i: usize = self.all_versions.len();
        assert(vs.take(i as int) =~= vs);
        while i > 0
            invariant
                i <= self.all_versions.len(),
                vs == self@.versions,
                v == self@.latest,
                find_version(vs, v) == find_version(vs.take(i as int), v),
            decreases i,
        {
            assert(vs.take(i as int).drop_last() =~= vs.take(i - 1));
            if self.all_versions[i - 1].0.0 == v {
                assert(vs.take(i as int).last() == vs[i - 1]);
                return Some(self.all_versions[i - 1].1);
            }
            i = i - 1;
        }
        proof {
            assert(vs.take(0) =~= Seq::<(u64, nat)>::empty());
        }
        None
    }

    /// The index of the declaration of the latest version.
    pub fn latest(&self) -> (r: usize)
        requires
            find_version(self@.versions, self@.latest) is Some,
        ensures
            r == latest_handle(self@),
    {
        proof {
            lemma_find_version_in_range(self@.versions, self@.latest);
        }
        match self.find_latest() {
            Some(h) => h,
            None => 0,
        }
    }
}

impl Apis {
    pub open spec fn wf(&self) -> bool {
        registry_wf(self@)
    }

    pub fn new() -> (r: Self)
        ensures
            r@ == Seq::<ApiM>::empty(),
            r.wf(),
    {
        Apis { apis: Vec::new() }
    }

    fn find(&self, name: &String) -> (r: Option<usize>)
        ensures
            r matches Some(k) ==> find_api(self@, name@) == Some(k as int),
            r is None ==> find_api(self@, name@) is None,
    {
        let ghost reg = self@;
        let mut i: usize = self.apis.len();
        assert(reg.take(i as int) =~= reg);
        while i > 0
            invariant
                i <= self.apis.len(),
                reg == self@,
                find_api(reg, name@) == find_api(reg.take(i as int), name@),
            decreases i,
        {
            assert(reg.take(i as int).drop_last() =~= reg.take(i - 1));
            if self.apis[i - 1].name == *name {
                assert(reg.take(i as int).last() == reg[i - 1]);
                return Some(i - 1);
            }
            i = i - 1;
        }
        proof {
            assert(reg.take(0) =~= Seq::<ApiM>::empty());
        }
        None
    }

    /// The index of the declaration of the latest version of `name`.
    pub fn latest(&self, name: &str) -> (r: Option<usize>)
        requires
            self.wf(),
        ensures
            r == (match find_api(self@, name@) {
                Some(k) => Some(latest_handle(self@[k]) as usize),
                None => None,
            }),
    {
        let key = String::from_str(name);
        match self.find(&key) {
            Some(k) => {
                proof {
                    lemma_find_api_in_range(self@, name@);
                    assert(find_version(self@[k as int].versions, self@[k as int].latest) is Some);
                }
                Some(self.apis[k].latest())
            },
            None => None,
        }
    }

    /// Registers `decl` as version `version` of `name`. Returns the declaration
    /// already registered under that version, if any; the registry then stays
    /// as it was. Otherwise the entry's latest version is raised when
    /// `version` exceeds it.
    pub fn insert(&mut self, name: String, version: Version, decl: usize) -> (r: Option<usize>)
        ensures
            final(self)@ == reg_insert(old(self)@, name@, version.0, decl as nat).0,
            r == (match reg_insert(old(self)@, name@, version.0, decl as nat).1 {
                Some(h) => Some(h as usize),
                None => None,
            }),
            old(self).wf() ==> final(self).wf(),
    {
        proof {
            if self.wf() {
                lemma_reg_insert_wf(self@, name@, version.0, decl as nat);
            }
            lemma_find_api_in_range(self@, name@);
        }
        match self.find(&name) {
            Some(k) => {
                let ghost vs = self@[k as int].versions;
                let mut i: usize = self.apis[k].all_versions.len();
                assert(vs.take(i as int) =~= vs);
                while i > 0
                    invariant
                        k < self.apis.len(),
                        i <= self.apis[k as int].all_versions.len(),
                        vs == self@[k as int].versions,
                        self@ == old(self)@,
                        find_api(old(self)@, name@) == Some(k as int),
                        find_version(vs, version.0) == find_version(vs.take(i as int), version.0),
                    decreases i,
                {
                    assert(vs.take(i as int).drop_last() =~= vs.take(i - 1));
                    if self.apis[k].all_versions[i - 1].0.0 == version.0 {
                        assert(vs.take(i as int).last() == vs[i - 1]);
                        assert(self@[k as int] == self.apis[k as int]@);
                        return Some(self.apis[k].all_versions[i - 1].1);
                    }
                    i = i - 1;
                }
                proof {
                    assert(vs.take(0) =~= Seq::<(u64, nat)>::empty());
                }
                let ghost before = self@;
                let ghost old_apis = self.apis@;
                let mut api = self.apis.remove(k);
                let ghost old_api = api@;
                api.all_versions.push((version, decl));
                if version.0 > api.latest.0 {
                    api.latest = version;
                }
                proof {
                    assert(api@.versions =~= old_api.versions.push((version.0, decl as nat)));
                    assert(api@.name == name@);
                }
                let ghost new_api = api@;
                self.apis.insert(k, api);
                proof {
                    assert(self.apis@ =~= old_apis.update(k as int, self.apis@[k as int]));
                    assert(self@ =~= before.update(k as int, new_api));
                }
                None
            },
            None => {
                let mut all_versions = Vec::new();
                all_versions.push((version, decl));
                let ghost before = self@;
                let api = Api { name, latest: version, all_versions };
                assert(api@.versions =~= seq![(version.0, decl as nat)]);
                let ghost new_api = api@;
                self.apis.push(api);
                proof {
                    assert(self@ =~= before.push(new_api));
                }
                None
            },
        }
    }
}


impl Decl {
    /// The qualified name: `{name}_v{version}` for a function, the bare name
    /// otherwise.
    pub fn name(&self) -> (r: String)
        ensures
            r@ == qualified_name(self@),
    {
        match self {
            Decl::Fn(decl) => {
                let mut s = decl.name.clone();
                let sep = "_v";
                proof {
                    reveal_strlit("_v");
                }
                s.append(sep);
                push_decimal(&mut s, decl.version.0 as u128);
                s
            },
            Decl::Struct(decl) => decl.name.clone(),
            Decl::Opaque(decl) => decl.name.clone(),
            Decl::Const(decl) => decl.name.clone(),
        }
    }
}

impl ApiDefn {
    /// The unit as a value: declarations, registry and trailing trivia.
    pub open spec fn unit(&self) -> UnitM {
        UnitM {
            decls: self.decls@.map_values(|d: Decl| d@),
            registry: self.apis@,
            suffix: self.suffix@,
        }
    }

    /// The symbol table maps the qualified name of each declaration to it.
    pub open spec fn symbols_ok(&self) -> bool {
        &&& self.symbols@.len() == self.decls@.len()
        &&& forall|k: int|
            0 <= k < self.symbols@.len() ==> (#[trigger] self.symbols@[k]).0@ == qualified_name(
                self.decls@[k]@,
            ) && self.symbols@[k].1 == k
    }
}


/// Appends a trivia run as source text.
pub fn push_skip(out: &mut String, skip: &Skip)
    ensures
        final(out)@ == old(out)@ + skip_text(skip@),
{
    let mut i: usize = 0;
    while i < skip.0.len()
        invariant
            i <= skip.0@.len(),
            out@ == old(out)@ + skip_text(skip@.take(i as int)),
        decreases skip.0@.len() - i,
    {
        let ghost before = out@;
        match &skip.0[i] {
            SkipElem::Whitespace(w) => {
                out.append(w.as_str());
            },
            SkipElem::LineComment(txt) => {
                out.append("//");
                out.append(txt.as_str());
            },
            SkipElem::BlockComment(txt) => {
                out.append("/*");
                out.append(txt.as_str());
                out.append("*/");
            },
        }
        proof {
            assert(skip@.take(i + 1).drop_last() =~= skip@.take(i as int));
            assert(out@ =~= before + trivia_text(skip@[i as int]));
        }
        i = i + 1;
    }
    assert(skip@.take(i as int) =~= skip@);
}

} // verus!
