use dandiya::ast::{Apis, BaseType, Decl, Field, Skip, SkipElem, StructDecl, Type, Version};
use dandiya::emit::{c, emit, rust, Language, Options};
use dandiya::parse::{parse, Token, Tokenizer};
use dandiya::Error;

fn skip_text(skip: &Skip) -> String {
    let mut s = String::new();
    for e in &skip.0 {
        match e {
            SkipElem::Whitespace(w) => s.push_str(w),
            SkipElem::LineComment(t) => {
                s.push_str("//");
                s.push_str(t);
            }
            SkipElem::BlockComment(t) => {
                s.push_str("/*");
                s.push_str(t);
                s.push_str("*/");
            }
        }
    }
    s
}

fn prefix(d: &Decl) -> &Skip {
    match d {
        Decl::Fn(d) => &d.prefix,
        Decl::Struct(d) => &d.prefix,
        Decl::Opaque(d) => &d.prefix,
        Decl::Const(d) => &d.prefix,
    }
}

fn failure(src: &str, name: Option<&str>) -> String {
    match parse(src, name) {
        Err(Error::ParseFailure(m)) => m,
        Err(Error::Unknown) => panic!("unknown error"),
        Ok(_) => panic!("parse succeeded"),
    }
}

fn no_forwarding() -> Options {
    Options {
        api_forward_to_latest: false,
        ..Default::default()
    }
}

#[test]
fn trivia_between_declarations_is_kept_verbatim() {
    let src = "// head\nstruct A {}\n/* mid */ fn(v1) f();\n  // tail\n";
    let api = parse(src, None).unwrap();
    assert_eq!(api.decls.len(), 2);
    assert_eq!(skip_text(prefix(&api.decls[0])), "// head\n");
    assert_eq!(skip_text(prefix(&api.decls[1])), "\n/* mid */ ");
    assert_eq!(skip_text(&api.suffix), "\n  // tail\n");
}

#[test]
fn empty_source_parses_to_empty_unit() {
    let api = parse("", None).unwrap();
    assert!(api.decls.is_empty());
    assert!(api.symbols.is_empty());
    assert!(api.apis.apis.is_empty());
    assert_eq!(skip_text(&api.suffix), "");
}

#[test]
fn duplicate_struct_names_the_symbol() {
    let m = failure("struct A {} struct A {}", None);
    let expected = format!(
        "(anonymous):1:24: duplicate symbol 'A'\n  struct A {{}} struct A {{}}\n  {}^",
        " ".repeat(23)
    );
    assert_eq!(m, expected);
}

#[test]
fn same_function_version_twice_fails() {
    let m = failure("fn(v1) f();\nfn(v1) f();", None);
    assert!(m.starts_with("(anonymous):2:12: duplicate symbol 'f_v1'\n"));
}

#[test]
fn distinct_versions_record_the_greatest() {
    let api = parse("fn(v1) f(); fn(v3) f(); fn(v2) f(); fn(v7) g();", None).unwrap();
    assert_eq!(api.apis.apis.len(), 2);
    assert_eq!(api.apis.apis[0].latest, Version(3));
    assert_eq!(api.apis.apis[0].all_versions.len(), 3);
    assert_eq!(api.apis.latest("f"), Some(1));
    assert_eq!(api.apis.latest("g"), Some(3));
    assert_eq!(api.apis.latest("h"), None);
    assert_eq!(api.apis.apis[0].latest(), 1);
    let names: Vec<&str> = api.symbols.iter().map(|(n, _)| n.as_str()).collect();
    assert_eq!(names, vec!["f_v1", "f_v3", "f_v2", "g_v7"]);
}

#[test]
fn registry_insert_reports_duplicate_version() {
    let mut apis = Apis::new();
    assert_eq!(apis.insert("a".to_string(), Version(2), 0), None);
    assert_eq!(apis.insert("a".to_string(), Version(1), 1), None);
    assert_eq!(apis.insert("a".to_string(), Version(2), 5), Some(0));
    assert_eq!(apis.apis.len(), 1);
    assert_eq!(apis.apis[0].latest, Version(2));
    assert_eq!(apis.latest("a"), Some(0));
}

#[test]
fn qualified_names() {
    let api = parse("fn(v12) f(); struct S {} opaque O; const K = 1;", None).unwrap();
    let names: Vec<String> = api.decls.iter().map(|d| d.name()).collect();
    assert_eq!(names, vec!["f_v12", "S", "O", "K"]);
}

#[test]
fn array_of_array_is_rejected() {
    let m = failure("struct S { a: [[u8; 2]; 2], }", None);
    assert!(m.contains("type is too complex to express in C code"));
}

#[test]
fn array_of_pointers_is_accepted() {
    parse("struct S { a: [*u8; 2], }", None).unwrap();
}

#[test]
fn pointer_to_array_is_rejected() {
    let m = failure("struct S { a: *[u8; 2], }", None);
    assert!(m.contains("type is too complex to express in C code"));
}

#[test]
fn array_return_is_rejected() {
    let m = failure("fn(v1) f() -> [u8; 2];", None);
    assert_eq!(
        m,
        "(anonymous):1:22: return type is not allowed to be an array\n  fn(v1) f() -> [u8; 2];\n                       ^"
    );
}

#[test]
fn pointer_and_single_array_are_accepted() {
    parse("struct S { a: *u8, b: [u8; 2], c: **S } fn(v1) f(x: *S) -> *u8;", None).unwrap();
}

#[test]
fn emitting_twice_gives_the_same_text() {
    let api = parse("struct A { x: u8 } fn(v1) f(a: *A) -> u8; fn(v2) f();", None).unwrap();
    let options = Options::default();
    assert_eq!(emit(&api, Language::C, options), emit(&api, Language::C, options));
    assert_eq!(emit(&api, Language::Rust, options), emit(&api, Language::Rust, options));
}

#[test]
fn c_prototype_without_export_annotation() {
    let api = parse("fn(v1) my_func(a: u8, b: u16) -> u64;", None).unwrap();
    let options = Options {
        c_export_api: false,
        ..no_forwarding()
    };
    let text = emit(&api, Language::C, options);
    let expected = format!(
        "{}uint64_t my_func_v1(uint8_t a, uint16_t b);{}",
        c::PREAMBLE,
        c::POSTAMBLE
    );
    assert_eq!(text, expected);
}

#[test]
fn forwarding_wrapper_calls_latest_version() {
    let src = "fn(v1) do_thing(a: u8) -> u8;\nfn(v2) do_thing(a: u8, b: *u16) -> *u8;";
    let api = parse(src, None).unwrap();
    let text = emit(&api, Language::Rust, Options::default());
    let expected = format!(
        "{}extern \"C\" {{ pub fn do_thing_v1(a: u8) -> u8; }}\n\
         extern \"C\" {{ pub fn do_thing_v2(a: u8, b: *mut u16) -> *mut u8; }}{}\
         pub unsafe fn do_thing(a: u8, b: *mut u16) -> *mut u8 {{ do_thing_v2(a, b) }}\n{}",
        rust::PREAMBLE,
        rust::API_HEADER,
        rust::POSTAMBLE
    );
    assert_eq!(text, expected);
    assert_eq!(text.matches("pub unsafe fn").count(), 1);
}

#[test]
fn forwarding_is_off_when_asked() {
    let api = parse("fn(v1) f();", None).unwrap();
    let text = emit(&api, Language::Rust, no_forwarding());
    assert!(!text.contains("pub unsafe fn"));
    assert!(!text.contains(rust::API_HEADER));
}

#[test]
fn array_of_named_type_in_c() {
    let api = parse("struct T { a: [*Foo; 3], b: i64 }", None).unwrap();
    let text = emit(&api, Language::C, no_forwarding());
    let expected = format!(
        "{}typedef struct T T_t;\nstruct T {{\n  Foo_t* a[3];\n  int64_t b;\n}};{}",
        c::PREAMBLE,
        c::POSTAMBLE
    );
    assert_eq!(text, expected);
}

#[test]
fn invalid_character_diagnostic() {
    let mut tok = Tokenizer::new("@", None);
    match tok.next_tok() {
        Err(Error::ParseFailure(m)) => assert_eq!(
            m,
            "(anonymous):1:1: tokenizer read an invalid character: '@'\n  @\n  ^"
        ),
        _ => panic!("expected a failure"),
    }
}

#[test]
fn column_counts_bytes() {
    let m = failure("/* \u{e9} */ @", None);
    assert_eq!(
        m,
        "(anonymous):1:10: tokenizer read an invalid character: '@'\n  /* \u{e9} */ @\n           ^"
    );
}

#[test]
fn line_numbers_follow_newlines() {
    let m = failure("\n\n  $", Some("x.dy"));
    assert_eq!(
        m,
        "x.dy:3:3: tokenizer read an invalid character: '$'\n    $\n    ^"
    );
}

#[test]
fn unterminated_block_comment() {
    let m = failure("struct A {}\n/* open", Some("x.dy"));
    assert_eq!(
        m,
        "x.dy:2:1: reached <end-of-file> while inside a block-comment\n  /* open\n  ^"
    );
}

#[test]
fn lone_minus_is_rejected() {
    let m = failure("fn(v1) f() - u8;", None);
    assert!(m.contains(": expected '->'\n"));
}

#[test]
fn number_too_large() {
    let m = failure("const K = 18446744073709551616;", None);
    assert!(m.contains(
        ": tokenizer read a number that was too large for u64: '18446744073709551616'\n"
    ));
}

#[test]
fn unexpected_token() {
    let m = failure("struct 5 {}", None);
    assert_eq!(
        m,
        "(anonymous):1:8: expected <identifier>, found <u64>\n  struct 5 {}\n         ^"
    );
}

#[test]
fn trailing_garbage_is_rejected() {
    let m = failure("opaque A; ;", None);
    assert!(m.contains("expected <end-of-file>, found ';'"));
}

#[test]
fn bad_version_identifiers() {
    assert!(failure("fn(x1) f();", None).contains("not a version identifier"));
    assert!(failure("fn(v) f();", None).contains("not a version number"));
    assert!(failure("fn(v1x) f();", None).contains("not a version number"));
    assert!(failure("fn(v18446744073709551616) f();", None).contains("not a version number"));
}

#[test]
fn basetype_expected() {
    let m = failure("struct S { a: ; }", None);
    assert!(m.contains("expected <typename>, found ';'"));
}

#[test]
fn token_descriptions() {
    assert_eq!(Token::Punc(';').desc(), "';'");
    assert_eq!(Token::Ident("x".to_string()).desc(), "<identifier>");
    assert_eq!(Token::Arrow.desc(), "'->'");
}

#[test]
fn tokenizer_peeks_ahead() {
    let tok = Tokenizer::new("ab", None);
    assert_eq!(tok.peek_char_nth(1), Some('b'));
    assert_eq!(tok.peek_char_nth(2), None);
}

#[test]
fn tokenizer_hands_out_trivia() {
    let mut tok = Tokenizer::new(" // c\n->", None);
    let (skip, t) = tok.next().unwrap();
    assert_eq!(t, Token::Arrow);
    assert_eq!(skip_text(&skip), " // c\n");
    assert_eq!(tok.next_tok().unwrap(), Token::EndOfFile);
}

#[test]
fn trailing_commas_in_fields() {
    let api = parse("fn(v1) f(a: u8, b: u8,);", None).unwrap();
    match &api.decls[0] {
        Decl::Fn(f) => assert_eq!(f.args.len(), 2),
        _ => panic!("expected a function"),
    }
}

#[test]
fn parsed_units_pass_the_type_check() {
    let api = parse("struct S { a: [*u8; 2], b: **S } fn(v1) f(x: [u8; 4]) -> *u8;", None).unwrap();
    assert!(dandiya::parse::types_are_sane(&api));
}

#[test]
fn type_check_rejects_nested_arrays() {
    let mut api = parse("", None).unwrap();
    let inner = Type::Array(Box::new(Type::Base(BaseType::U8)), 2);
    api.decls.push(Decl::Struct(StructDecl {
        prefix: Skip(Vec::new()),
        name: "S".to_string(),
        fields: vec![Field {
            name: "a".to_string(),
            typ: Type::Array(Box::new(inner), 2),
        }],
    }));
    assert!(!dandiya::parse::types_are_sane(&api));
}

#[test]
fn lines_are_counted_through_block_comments() {
    let m = failure("/* one\ntwo */ @", None);
    assert_eq!(
        m,
        "(anonymous):2:8: tokenizer read an invalid character: '@'\n  two */ @\n         ^"
    );
}

#[test]
fn types_used_before_declaration_are_forward_declared() {
    let api = parse("struct A { b: *B, } struct B { a: *A } opaque C;", None).unwrap();
    let text = emit(&api, Language::C, no_forwarding());
    let expected = format!(
        "{}typedef struct B B_t;\ntypedef struct A A_t;\nstruct A {{\n  B_t* b;\n}}; struct B {{\n  A_t* a;\n}}; typedef struct C C_t;{}",
        c::PREAMBLE,
        c::POSTAMBLE
    );
    assert_eq!(text, expected);
}

#[test]
fn functions_using_later_types_forward_declare_them() {
    let api = parse("fn(v1) f(x: *H) -> *H; opaque H;", None).unwrap();
    let text = emit(&api, Language::C, no_forwarding());
    let expected = format!(
        "{}typedef struct H H_t;\nDANDIYA_API_EXPORT H_t* f_v1(H_t* x); {}",
        c::PREAMBLE,
        c::POSTAMBLE
    );
    assert_eq!(text, expected);
}
