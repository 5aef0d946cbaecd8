use vstd::prelude::*;
use crate::ast::{
    decimal, is_array_recursively, is_sane_for_c, qualified_name, reg_insert, ApiM, BaseM, DeclM,
    FieldM, RetM, TriviaM, TypeM,
};
use crate::text::{
    all_digits, digits_value, is_digit, is_ident_char, is_ident_start, is_punc, is_white, spaces,
};
use vstd::utf8::encode_utf8;

verus! {

// ---------------------------------------------------------------------------
// Lexical structure
// ---------------------------------------------------------------------------

/// A place in the source: the cursor, the start of its line, and the line's
/// number (counting from one).
pub struct Pos {
    pub idx: nat,
    pub line_start: nat,
    pub line_num: nat,
}

pub enum TokenM {
    EndOfFile,
    Ident(Seq<char>),
    U64(u64),
    Fn,
    Struct,
    Opaque,
    Const,
    Arrow,
    Punc(char),
}

/// A failure, with where it is reported: the line of `at`, and the column of
/// `tok_idx` on that line.
pub struct Diag {
    pub at: Pos,
    pub tok_idx: nat,
    pub msg: Seq<char>,
}

/// What one step of the tokenizer gives: the trivia and the token, where the
/// token starts, and the place after it; or a failure.
pub enum Lexed {
    Tok { skip: Seq<TriviaM>, tok: TokenM, tok_idx: nat, after: Pos },
    Fail(Diag),
}

/// Past whitespace, counting lines.
pub open spec fn scan_white(s: Seq<char>, p: Pos) -> Pos
    decreases s.len() - p.idx,
{
    if p.idx < s.len() && is_white(s[p.idx as int]) {
        if s[p.idx as int] == '\n' {
            scan_white(s, Pos { idx: p.idx + 1, line_start: p.idx + 1, line_num: p.line_num + 1 })
        } else {
            scan_white(s, Pos { idx: p.idx + 1, ..p })
        }
    } else {
        p
    }
}

pub open spec fn at2(s: Seq<char>, i: nat, a: char, b: char) -> bool {
    i + 1 < s.len() && s[i as int] == a && s[(i + 1) as int] == b
}

/// The first line break at or after `i`, or the end.
pub open spec fn line_end(s: Seq<char>, i: nat) -> nat
    decreases s.len() - i,
{
    if i < s.len() && s[i as int] != '\n' {
        line_end(s, i + 1)
    } else {
        i
    }
}

pub proof fn lemma_line_end(s: Seq<char>, i: nat)
    ensures
        i <= line_end(s, i),
        i <= s.len() ==> line_end(s, i) <= s.len(),
        line_end(s, i) < s.len() ==> s[line_end(s, i) as int] == '\n',
        forall|j: int| i <= j < line_end(s, i) ==> s[j] != '\n',
    decreases s.len() - i,
{
    if i < s.len() && s[i as int] != '\n' {
        lemma_line_end(s, i + 1);
    }
}

/// The first `*/` at or after `i`.
pub open spec fn block_end(s: Seq<char>, i: nat) -> Option<nat>
    decreases s.len() - i,
{
    if i >= s.len() {
        None
    } else if at2(s, i, '*', '/') {
        Some(i)
    } else {
        block_end(s, i + 1)
    }
}

pub proof fn lemma_block_end(s: Seq<char>, i: nat)
    ensures
        block_end(s, i) matches Some(e) ==> i <= e && e + 1 < s.len() && at2(s, e, '*', '/'),
        block_end(s, i) matches Some(e) ==> forall|j: nat| i <= j < e ==> !at2(s, j, '*', '/'),
        block_end(s, i) is None ==> forall|j: nat| i <= j ==> !at2(s, j, '*', '/'),
    decreases s.len() - i,
{
    if i < s.len() && !at2(s, i, '*', '/') {
        lemma_block_end(s, i + 1);
    }
}

/// Moves the cursor on to `end`, counting the lines it passes.
pub open spec fn pass_to(s: Seq<char>, p: Pos, end: nat) -> Pos
    decreases end - p.idx,
{
    if p.idx < end && p.idx < s.len() {
        if s[p.idx as int] == '\n' {
            pass_to(s, Pos { idx: p.idx + 1, line_start: p.idx + 1, line_num: p.line_num + 1 }, end)
        } else {
            pass_to(s, Pos { idx: p.idx + 1, ..p }, end)
        }
    } else {
        p
    }
}

pub proof fn lemma_pass_to(s: Seq<char>, p: Pos, end: nat)
    requires
        p.idx <= end <= s.len(),
    ensures
        pass_to(s, p, end).idx == end,
    decreases end - p.idx,
{
    if p.idx < end {
        if s[p.idx as int] == '\n' {
            lemma_pass_to(s, Pos { idx: p.idx + 1, line_start: p.idx + 1, line_num: p.line_num + 1 }, end);
        } else {
            lemma_pass_to(s, Pos { idx: p.idx + 1, ..p }, end);
        }
    }
}

/// A trivia run: whitespace, then a comment and whitespace again as long as a
/// comment follows. Fails at an unterminated block comment, reported where it
/// starts.
pub open spec fn scan_skip(s: Seq<char>, p: Pos) -> Result<(Seq<TriviaM>, Pos), Pos>
    decreases s.len() - p.idx,
{
    let w = scan_white(s, p);
    let ws = TriviaM::Whitespace(s.subrange(p.idx as int, w.idx as int));
    if !(p.idx <= w.idx <= s.len()) {
        Err(w)
    } else if at2(s, w.idx, '/', '/') {
        let e = line_end(s, w.idx + 2);
        proof {
            lemma_line_end(s, w.idx + 2);
        }
        match scan_skip(s, Pos { idx: e, ..w }) {
            Ok((rest, q)) => Ok((
                seq![ws, TriviaM::LineComment(s.subrange((w.idx + 2) as int, e as int))] + rest,
                q,
            )),
            Err(q) => Err(q),
        }
    } else if at2(s, w.idx, '/', '*') {
        proof {
            lemma_block_end(s, w.idx + 2);
            if let Some(e) = block_end(s, w.idx + 2) {
                lemma_pass_to(s, w, e + 2);
            }
        }
        match block_end(s, w.idx + 2) {
            Some(e) => match scan_skip(s, pass_to(s, w, e + 2)) {
                Ok((rest, q)) => Ok((
                    seq![ws, TriviaM::BlockComment(s.subrange((w.idx + 2) as int, e as int))] + rest,
                    q,
                )),
                Err(q) => Err(q),
            },
            None => Err(w),
        }
    } else {
        Ok((seq![ws], w))
    }
}

/// The end of the run of digits starting at `i`.
pub open spec fn digits_end(s: Seq<char>, i: nat) -> nat
    decreases s.len() - i,
{
    if i < s.len() && is_digit(s[i as int]) {
        digits_end(s, i + 1)
    } else {
        i
    }
}

pub open spec fn ident_end(s: Seq<char>, i: nat) -> nat
    decreases s.len() - i,
{
    if i < s.len() && is_ident_char(s[i as int]) {
        ident_end(s, i + 1)
    } else {
        i
    }
}

pub open spec fn keyword_or_ident(w: Seq<char>) -> TokenM {
    if w == "fn"@ {
        TokenM::Fn
    } else if w == "struct"@ {
        TokenM::Struct
    } else if w == "opaque"@ {
        TokenM::Opaque
    } else if w == "const"@ {
        TokenM::Const
    } else {
        TokenM::Ident(w)
    }
}

/// The token at `i` and the index after it, or the failure message.
pub open spec fn lex_token(s: Seq<char>, i: nat) -> Result<(TokenM, nat), Seq<char>> {
    if i >= s.len() {
        Ok((TokenM::EndOfFile, i))
    } else {
        let c = s[i as int];
        if c == '-' {
            if at2(s, i, '-', '>') {
                Ok((TokenM::Arrow, i + 2))
            } else {
                Err("expected '->'"@)
            }
        } else if is_punc(c) {
            Ok((TokenM::Punc(c), i + 1))
        } else if is_digit(c) {
            let e = digits_end(s, i);
            let ds = s.subrange(i as int, e as int);
            if digits_value(ds) <= u64::MAX {
                Ok((TokenM::U64(digits_value(ds) as u64), e))
            } else {
                Err("tokenizer read a number that was too large for u64: '"@ + ds + "'"@)
            }
        } else if is_ident_start(c) {
            let e = ident_end(s, i + 1);
            Ok((keyword_or_ident(s.subrange(i as int, e as int)), e))
        } else {
            Err("tokenizer read an invalid character: '"@ + seq![c] + "'"@)
        }
    }
}

/// One step of the tokenizer from `p`.
pub open spec fn lex(s: Seq<char>, p: Pos) -> Lexed {
    match scan_skip(s, p) {
        Err(w) => Lexed::Fail(
            Diag { at: w, tok_idx: w.idx, msg: "reached <end-of-file> while inside a block-comment"@ },
        ),
        Ok((skip, q)) => match lex_token(s, q.idx) {
            Ok((tok, e)) => Lexed::Tok { skip, tok, tok_idx: q.idx, after: Pos { idx: e, ..q } },
            Err(msg) => Lexed::Fail(Diag { at: q, tok_idx: q.idx, msg }),
        },
    }
}

pub open spec fn start_pos() -> Pos {
    Pos { idx: 0, line_start: 0, line_num: 1 }
}

/// The steps of the tokenizer from `p` up to the end of input or the first
/// failure, both included.
pub open spec fn lex_from(s: Seq<char>, p: Pos) -> Seq<Lexed>
    decreases s.len() - p.idx,
{
    match lex(s, p) {
        Lexed::Tok { tok, after, .. } => {
            if tok !is EndOfFile && p.idx < after.idx <= s.len() {
                seq![lex(s, p)] + lex_from(s, after)
            } else {
                seq![lex(s, p)]
            }
        },
        Lexed::Fail(_) => seq![lex(s, p)],
    }
}

/// The token stream of a source text.
pub open spec fn tokens(s: Seq<char>) -> Seq<Lexed> {
    lex_from(s, start_pos())
}

pub proof fn lemma_scan_white(s: Seq<char>, p: Pos)
    requires
        p.idx <= s.len(),
    ensures
        p.idx <= scan_white(s, p).idx <= s.len(),
    decreases s.len() - p.idx,
{
    if p.idx < s.len() && is_white(s[p.idx as int]) {
        if s[p.idx as int] == '\n' {
            lemma_scan_white(s, Pos { idx: p.idx + 1, line_start: p.idx + 1, line_num: p.line_num + 1 });
        } else {
            lemma_scan_white(s, Pos { idx: p.idx + 1, ..p });
        }
    }
}

proof fn lemma_scan_skip(s: Seq<char>, p: Pos)
    requires
        p.idx <= s.len(),
    ensures
        scan_skip(s, p) matches Ok((_, q)) ==> p.idx <= q.idx <= s.len(),
    decreases s.len() - p.idx,
{
    lemma_scan_white(s, p);
    let w = scan_white(s, p);
    if at2(s, w.idx, '/', '/') {
        let e = line_end(s, w.idx + 2);
        lemma_line_end(s, w.idx + 2);
        lemma_scan_skip(s, Pos { idx: e, ..w });
    } else if at2(s, w.idx, '/', '*') {
        lemma_block_end(s, w.idx + 2);
        if let Some(e) = block_end(s, w.idx + 2) {
            lemma_pass_to(s, w, e + 2);
            lemma_scan_skip(s, pass_to(s, w, e + 2));
        }
    }
}

proof fn lemma_digits_end(s: Seq<char>, i: nat)
    requires
        i <= s.len(),
    ensures
        i <= digits_end(s, i) <= s.len(),
        i < s.len() && is_digit(s[i as int]) ==> i < digits_end(s, i),
    decreases s.len() - i,
{
    if i < s.len() && is_digit(s[i as int]) {
        lemma_digits_end(s, i + 1);
    }
}

proof fn lemma_ident_end(s: Seq<char>, i: nat)
    requires
        i <= s.len(),
    ensures
        i <= ident_end(s, i) <= s.len(),
    decreases s.len() - i,
{
    if i < s.len() && is_ident_char(s[i as int]) {
        lemma_ident_end(s, i + 1);
    }
}

/// A token other than the end of input takes up at least one character.
pub proof fn lemma_lex_progress(s: Seq<char>, p: Pos)
    requires
        p.idx <= s.len(),
    ensures
        lex(s, p) matches Lexed::Tok { tok, tok_idx, after, .. } ==> p.idx <= tok_idx <= after.idx
            <= s.len() && (tok !is EndOfFile ==> p.idx < after.idx),
{
    lemma_scan_skip(s, p);
    if let Ok((_, q)) = scan_skip(s, p) {
        if q.idx < s.len() {
            lemma_digits_end(s, q.idx);
            lemma_ident_end(s, q.idx + 1);
        }
    }
}

/// Each step of the stream starts where the one before it ended, and only
/// the last step is the end of input or a failure.
pub proof fn lemma_lex_from(s: Seq<char>, p: Pos, k: nat)
    requires
        p.idx <= s.len(),
        k < lex_from(s, p).len(),
    ensures
        lex_from(s, p)[0] == lex(s, p),
        lex_from(s, p)[k as int] matches Lexed::Tok { tok, after, .. } ==> after.idx <= s.len() && (
        tok !is EndOfFile ==> k + 1 < lex_from(s, p).len() && lex_from(s, p)[(k + 1) as int] == lex(s, after)),
    decreases s.len() - p.idx,
{
    lemma_lex_progress(s, p);
    if let Lexed::Tok { tok, after, .. } = lex(s, p) {
        if tok !is EndOfFile {
            if k > 0 {
                lemma_lex_from(s, after, (k - 1) as nat);
                lemma_lex_progress(s, after);
            } else {
                lemma_lex_from(s, after, 0);
            }
        }
    }
}

// ---------------------------------------------------------------------------
// Diagnostics
// ---------------------------------------------------------------------------

/// How a token is named in a diagnostic.
pub open spec fn token_desc(t: TokenM) -> Seq<char> {
    match t {
        TokenM::EndOfFile => "<end-of-file>"@,
        TokenM::Ident(_) => "<identifier>"@,
        TokenM::U64(_) => "<u64>"@,
        TokenM::Fn => "'fn'"@,
        TokenM::Struct => "'struct'"@,
        TokenM::Opaque => "'opaque'"@,
        TokenM::Const => "'const'"@,
        TokenM::Arrow => "'->'"@,
        TokenM::Punc(c) => seq!['\'', c, '\''],
    }
}

/// The text of the line that starts at `i`, without its line break.
pub open spec fn line_text(s: Seq<char>, i: nat) -> Seq<char> {
    s.subrange(i as int, line_end(s, i) as int)
}

/// The column of `i` on the line that starts at `line_start`, in bytes of UTF-8.
pub open spec fn byte_col(s: Seq<char>, line_start: nat, i: nat) -> nat {
    (encode_utf8(s.subrange(line_start as int, i as int)).len() as usize) as nat
}

/// The rendered diagnostic: `{source}:{line}:{column}: {message}`, then the
/// line's text, then a caret under the column.
pub open spec fn render_diag(src: Seq<char>, s: Seq<char>, d: Diag) -> Seq<char> {
    let col = byte_col(s, d.at.line_start, d.tok_idx);
    src + ":"@ + decimal(d.at.line_num) + ":"@ + decimal(col + 1) + ": "@ + d.msg + "\n  "@
        + line_text(s, d.at.line_start) + "\n  "@ + spaces(col) + "^"@
}

/// The name a source is reported under.
pub open spec fn source_label(name: Option<Seq<char>>) -> Seq<char> {
    match name {
        Some(n) => n,
        None => "(anonymous)"@,
    }
}


// ---------------------------------------------------------------------------
// Grammar, over the token stream
// ---------------------------------------------------------------------------

/// A parse of part of the stream: the value and the index of the token after
/// it, or the failure.
pub type Parsed<A> = Result<(A, nat), Diag>;

pub open spec fn tok_at(t: Seq<Lexed>, i: nat) -> TokenM {
    match t[i as int] {
        Lexed::Tok { tok, .. } => tok,
        Lexed::Fail(_) => TokenM::EndOfFile,
    }
}

pub open spec fn skip_at(t: Seq<Lexed>, i: nat) -> Seq<TriviaM> {
    match t[i as int] {
        Lexed::Tok { skip, .. } => skip,
        Lexed::Fail(_) => Seq::empty(),
    }
}

/// A failure reported at token `i`.
pub open spec fn fail_at(t: Seq<Lexed>, i: nat, msg: Seq<char>) -> Diag {
    match t[i as int] {
        Lexed::Tok { tok_idx, after, .. } => Diag { at: after, tok_idx, msg },
        Lexed::Fail(d) => d,
    }
}

/// Moving past token `i`.
pub open spec fn advance(t: Seq<Lexed>, i: nat) -> Result<nat, Diag> {
    if i + 1 < t.len() {
        match t[(i + 1) as int] {
            Lexed::Tok { .. } => Ok(i + 1),
            Lexed::Fail(d) => Err(d),
        }
    } else {
        Err(fail_at(t, i, Seq::empty()))
    }
}

pub open spec fn found(expected: Seq<char>, t: TokenM) -> Seq<char> {
    "expected "@ + expected + ", found "@ + token_desc(t)
}

pub open spec fn expect(t: Seq<Lexed>, i: nat, want: TokenM) -> Result<nat, Diag> {
    if tok_at(t, i) == want {
        advance(t, i)
    } else {
        Err(fail_at(t, i, found(token_desc(want), tok_at(t, i))))
    }
}

pub open spec fn expect_ident(t: Seq<Lexed>, i: nat) -> Parsed<Seq<char>> {
    match tok_at(t, i) {
        TokenM::Ident(n) => match advance(t, i) {
            Ok(j) => Ok((n, j)),
            Err(d) => Err(d),
        },
        _ => Err(fail_at(t, i, found("<identifier>"@, tok_at(t, i)))),
    }
}

pub open spec fn expect_u64(t: Seq<Lexed>, i: nat) -> Parsed<u64> {
    match tok_at(t, i) {
        TokenM::U64(n) => match advance(t, i) {
            Ok(j) => Ok((n, j)),
            Err(d) => Err(d),
        },
        _ => Err(fail_at(t, i, found("<u64>"@, tok_at(t, i)))),
    }
}

pub open spec fn base_of(n: Seq<char>) -> BaseM {
    if n == "u8"@ {
        BaseM::U8
    } else if n == "i8"@ {
        BaseM::I8
    } else if n == "u16"@ {
        BaseM::U16
    } else if n == "i16"@ {
        BaseM::I16
    } else if n == "u32"@ {
        BaseM::U32
    } else if n == "i32"@ {
        BaseM::I32
    } else if n == "u64"@ {
        BaseM::U64
    } else if n == "i64"@ {
        BaseM::I64
    } else {
        BaseM::Named(n)
    }
}

// basetype = ident
pub open spec fn parse_basetype(t: Seq<Lexed>, i: nat) -> Parsed<BaseM> {
    match tok_at(t, i) {
        TokenM::Ident(n) => match advance(t, i) {
            Ok(j) => Ok((base_of(n), j)),
            Err(d) => Err(d),
        },
        _ => Err(fail_at(t, i, found("<typename>"@, tok_at(t, i)))),
    }
}

pub open spec fn sane_or_fail(t: Seq<Lexed>, ty: TypeM, j: nat) -> Parsed<TypeM> {
    if is_sane_for_c(ty) {
        Ok((ty, j))
    } else {
        Err(fail_at(t, j, "type is too complex to express in C code"@))
    }
}

// type = "*" type | "[" type ";" u64 "]" | basetype
pub open spec fn parse_type(t: Seq<Lexed>, i: nat) -> Parsed<TypeM>
    decreases t.len() - i,
{
    match tok_at(t, i) {
        TokenM::Punc('*') => match advance(t, i) {
            Ok(j) => match parse_type(t, j) {
                Ok((sub, k)) => sane_or_fail(t, TypeM::Pointer(Box::new(sub)), k),
                Err(d) => Err(d),
            },
            Err(d) => Err(d),
        },
        TokenM::Punc('[') => match advance(t, i) {
            Ok(j) => match parse_type(t, j) {
                Ok((sub, k)) => match expect(t, k, TokenM::Punc(';')) {
                    Ok(k1) => match expect_u64(t, k1) {
                        Ok((n, k2)) => match expect(t, k2, TokenM::Punc(']')) {
                            Ok(k3) => sane_or_fail(t, TypeM::Array(Box::new(sub), n), k3),
                            Err(d) => Err(d),
                        },
                        Err(d) => Err(d),
                    },
                    Err(d) => Err(d),
                },
                Err(d) => Err(d),
            },
            Err(d) => Err(d),
        },
        _ => match parse_basetype(t, i) {
            Ok((b, j)) => sane_or_fail(t, TypeM::Base(b), j),
            Err(d) => Err(d),
        },
    }
}

pub proof fn lemma_parse_type_index(t: Seq<Lexed>, i: nat)
    requires
        i < t.len(),
    ensures
        parse_type(t, i) matches Ok((_, k)) ==> i < k < t.len(),
    decreases t.len() - i,
{
    if tok_at(t, i) == TokenM::Punc('*') || tok_at(t, i) == TokenM::Punc('[') {
        if advance(t, i) is Ok {
            lemma_parse_type_index(t, i + 1);
        }
    }
}

// field = ident ":" type
pub open spec fn maybe_parse_field(t: Seq<Lexed>, i: nat) -> Parsed<Option<FieldM>> {
    match tok_at(t, i) {
        TokenM::Ident(_) => match expect_ident(t, i) {
            Ok((name, j)) => match expect(t, j, TokenM::Punc(':')) {
                Ok(k) => match parse_type(t, k) {
                    Ok((ty, l)) => Ok((Some(FieldM { name, typ: ty }), l)),
                    Err(d) => Err(d),
                },
                Err(d) => Err(d),
            },
            Err(d) => Err(d),
        },
        _ => Ok((None, i)),
    }
}

pub proof fn lemma_field_index(t: Seq<Lexed>, i: nat)
    requires
        i < t.len(),
    ensures
        maybe_parse_field(t, i) matches Ok((f, k)) ==> i <= k < t.len() && (f is Some ==> i < k),
{
    if let TokenM::Ident(_) = tok_at(t, i) {
        if let Ok((_, j)) = expect_ident(t, i) {
            if let Ok(k) = expect(t, j, TokenM::Punc(':')) {
                lemma_parse_type_index(t, k);
            }
        }
    }
}

/// The fields after the first: `("," field)* ","?`.
pub open spec fn parse_more_fields(t: Seq<Lexed>, i: nat, acc: Seq<FieldM>) -> Parsed<Seq<FieldM>>
    decreases t.len() - i,
{
    if i >= t.len() || tok_at(t, i) != TokenM::Punc(',') {
        Ok((acc, i))
    } else {
        match advance(t, i) {
            Ok(j) => {
                proof {
                    lemma_field_index(t, j);
                }
                match maybe_parse_field(t, j) {
                    Ok((Some(f), k)) => parse_more_fields(t, k, acc.push(f)),
                    Ok((None, k)) => Ok((acc, k)),
                    Err(d) => Err(d),
                }
            },
            Err(d) => Err(d),
        }
    }
}

// fields = "" | field ("," field)* ","?
pub open spec fn parse_fields(t: Seq<Lexed>, i: nat) -> Parsed<Seq<FieldM>> {
    match maybe_parse_field(t, i) {
        Ok((Some(f), j)) => parse_more_fields(t, j, seq![f]),
        Ok((None, j)) => Ok((Seq::empty(), j)),
        Err(d) => Err(d),
    }
}

// ret = ("->" type)?
pub open spec fn parse_ret(t: Seq<Lexed>, i: nat) -> Parsed<RetM> {
    if tok_at(t, i) != TokenM::Arrow {
        Ok((RetM::Void, i))
    } else {
        match advance(t, i) {
            Ok(j) => match parse_type(t, j) {
                Ok((ty, k)) => if is_array_recursively(ty) {
                    Err(fail_at(t, k, "return type is not allowed to be an array"@))
                } else {
                    Ok((RetM::Value(ty), k))
                },
                Err(d) => Err(d),
            },
            Err(d) => Err(d),
        }
    }
}

/// The number in a version identifier `v<digits>`.
pub open spec fn version_number(w: Seq<char>) -> Option<u64> {
    let ds = w.skip(1);
    if ds.len() > 0 && all_digits(ds) && digits_value(ds) <= u64::MAX {
        Some(digits_value(ds) as u64)
    } else {
        None
    }
}

// version = "v" number
pub open spec fn parse_version(t: Seq<Lexed>, i: nat) -> Parsed<u64> {
    match expect_ident(t, i) {
        Ok((w, j)) => if w.len() == 0 || w[0] != 'v' {
            Err(fail_at(t, j, "not a version identifier"@))
        } else {
            match version_number(w) {
                Some(n) => Ok((n, j)),
                None => Err(fail_at(t, j, "not a version number"@)),
            }
        },
        Err(d) => Err(d),
    }
}

// func = "fn" "(" version ")" ident "(" fields ")" ret ";"
#[verifier::opaque]
pub open spec fn parse_fn(t: Seq<Lexed>, i: nat) -> Parsed<DeclM> {
    let prefix = skip_at(t, i);
    match expect(t, i, TokenM::Fn) {
        Ok(i1) => match expect(t, i1, TokenM::Punc('(')) {
            Ok(i2) => match parse_version(t, i2) {
                Ok((version, i3)) => match expect(t, i3, TokenM::Punc(')')) {
                    Ok(i4) => match expect_ident(t, i4) {
                        Ok((name, i5)) => match expect(t, i5, TokenM::Punc('(')) {
                            Ok(i6) => match parse_fields(t, i6) {
                                Ok((args, i7)) => match expect(t, i7, TokenM::Punc(')')) {
                                    Ok(i8) => match parse_ret(t, i8) {
                                        Ok((ret, i9)) => match expect(t, i9, TokenM::Punc(';')) {
                                            Ok(i10) => Ok(
                                                (DeclM::Fn { prefix, name, args, ret, version }, i10),
                                            ),
                                            Err(d) => Err(d),
                                        },
                                        Err(d) => Err(d),
                                    },
                                    Err(d) => Err(d),
                                },
                                Err(d) => Err(d),
                            },
                            Err(d) => Err(d),
                        },
                        Err(d) => Err(d),
                    },
                    Err(d) => Err(d),
                },
                Err(d) => Err(d),
            },
            Err(d) => Err(d),
        },
        Err(d) => Err(d),
    }
}

// struct = "struct" ident "{" fields "}"
#[verifier::opaque]
pub open spec fn parse_struct(t: Seq<Lexed>, i: nat) -> Parsed<DeclM> {
    let prefix = skip_at(t, i);
    match expect(t, i, TokenM::Struct) {
        Ok(i1) => match expect_ident(t, i1) {
            Ok((name, i2)) => match expect(t, i2, TokenM::Punc('{')) {
                Ok(i3) => match parse_fields(t, i3) {
                    Ok((fields, i4)) => match expect(t, i4, TokenM::Punc('}')) {
                        Ok(i5) => Ok((DeclM::Struct { prefix, name, fields }, i5)),
                        Err(d) => Err(d),
                    },
                    Err(d) => Err(d),
                },
                Err(d) => Err(d),
            },
            Err(d) => Err(d),
        },
        Err(d) => Err(d),
    }
}

// opaque = "opaque" ident ";"
#[verifier::opaque]
pub open spec fn parse_opaque(t: Seq<Lexed>, i: nat) -> Parsed<DeclM> {
    let prefix = skip_at(t, i);
    match expect(t, i, TokenM::Opaque) {
        Ok(i1) => match expect_ident(t, i1) {
            Ok((name, i2)) => match expect(t, i2, TokenM::Punc(';')) {
                Ok(i3) => Ok((DeclM::Opaque { prefix, name }, i3)),
                Err(d) => Err(d),
            },
            Err(d) => Err(d),
        },
        Err(d) => Err(d),
    }
}

// const = "const" ident "=" u64 ";"
#[verifier::opaque]
pub open spec fn parse_const(t: Seq<Lexed>, i: nat) -> Parsed<DeclM> {
    let prefix = skip_at(t, i);
    match expect(t, i, TokenM::Const) {
        Ok(i1) => match expect_ident(t, i1) {
            Ok((name, i2)) => match expect(t, i2, TokenM::Punc('=')) {
                Ok(i3) => match expect_u64(t, i3) {
                    Ok((value, i4)) => match expect(t, i4, TokenM::Punc(';')) {
                        Ok(i5) => Ok((DeclM::Const { prefix, name, value }, i5)),
                        Err(d) => Err(d),
                    },
                    Err(d) => Err(d),
                },
                Err(d) => Err(d),
            },
            Err(d) => Err(d),
        },
        Err(d) => Err(d),
    }
}

pub open spec fn starts_decl(tok: TokenM) -> bool {
    tok is Fn || tok is Struct || tok is Opaque || tok is Const
}

// decl = func | struct | opaque | const
pub open spec fn parse_decl(t: Seq<Lexed>, i: nat) -> Parsed<DeclM> {
    match tok_at(t, i) {
        TokenM::Fn => parse_fn(t, i),
        TokenM::Struct => parse_struct(t, i),
        TokenM::Opaque => parse_opaque(t, i),
        _ => parse_const(t, i),
    }
}

pub proof fn lemma_decl_index(t: Seq<Lexed>, i: nat)
    requires
        i < t.len(),
        starts_decl(tok_at(t, i)),
    ensures
        parse_decl(t, i) matches Ok((_, k)) ==> i < k < t.len(),
{
    // each form begins with its keyword, which is consumed first
    if let Ok((_, k)) = parse_decl(t, i) {
        assert(i < k < t.len()) by {
            lemma_decl_forms_index(t, i);
        }
    }
}

proof fn lemma_decl_forms_index(t: Seq<Lexed>, i: nat)
    requires
        i < t.len(),
    ensures
        parse_fn(t, i) matches Ok((_, k)) ==> i < k < t.len(),
        parse_struct(t, i) matches Ok((_, k)) ==> i < k < t.len(),
        parse_opaque(t, i) matches Ok((_, k)) ==> i < k < t.len(),
        parse_const(t, i) matches Ok((_, k)) ==> i < k < t.len(),
{
    lemma_fields_index_all(t);
    lemma_ret_index_all(t);
    reveal(parse_fn);
    reveal(parse_struct);
    reveal(parse_opaque);
    reveal(parse_const);
}

proof fn lemma_more_fields_index(t: Seq<Lexed>, i: nat, acc: Seq<FieldM>)
    ensures
        parse_more_fields(t, i, acc) matches Ok((_, k)) ==> i <= k && (i < t.len() ==> k < t.len()),
    decreases t.len() - i,
{
    if !(i >= t.len() || tok_at(t, i) != TokenM::Punc(',')) {
        if let Ok(j) = advance(t, i) {
            lemma_field_index(t, j);
            if let Ok((Some(f), k)) = maybe_parse_field(t, j) {
                lemma_more_fields_index(t, k, acc.push(f));
            }
        }
    }
}

proof fn lemma_fields_index_all(t: Seq<Lexed>)
    ensures
        forall|i: nat| i < t.len() ==> (#[trigger] parse_fields(t, i) matches Ok((_, k)) ==> i <= k < t.len()),
{
    assert forall|i: nat| i < t.len() implies (#[trigger] parse_fields(t, i) matches Ok((_, k)) ==> i <= k < t.len()) by {
        lemma_field_index(t, i);
        if let Ok((Some(f), j)) = maybe_parse_field(t, i) {
            lemma_more_fields_index(t, j, seq![f]);
        }
    }
}

proof fn lemma_ret_index_all(t: Seq<Lexed>)
    ensures
        forall|i: nat| i < t.len() ==> (#[trigger] parse_ret(t, i) matches Ok((_, k)) ==> i <= k < t.len()),
{
    assert forall|i: nat| i < t.len() implies (#[trigger] parse_ret(t, i) matches Ok((_, k)) ==> i <= k < t.len()) by {
        if tok_at(t, i) == TokenM::Arrow {
            if let Ok(j) = advance(t, i) {
                lemma_parse_type_index(t, j);
            }
        }
    }
}

/// A parsed compilation unit: the declarations in source order, the version
/// registry, and the trivia after the last declaration.
pub struct UnitM {
    pub decls: Seq<DeclM>,
    pub registry: Seq<ApiM>,
    pub suffix: Seq<TriviaM>,
}

/// Some declaration of `decls` has the qualified name `q`.
pub open spec fn has_name(decls: Seq<DeclM>, q: Seq<char>) -> bool {
    exists|k: int| 0 <= k < decls.len() && qualified_name(#[trigger] decls[k]) == q
}

/// The declarations from token `i` to the end, after those of `acc`, with
/// the symbol and version checks made as each one is added.
pub open spec fn parse_decls(t: Seq<Lexed>, i: nat, acc: Seq<DeclM>, reg: Seq<ApiM>) -> Result<UnitM, Diag>
    decreases t.len() - i,
{
    if i >= t.len() {
        Err(fail_at(t, i, Seq::empty()))
    } else if starts_decl(tok_at(t, i)) {
        proof {
            lemma_decl_index(t, i);
        }
        match parse_decl(t, i) {
            Ok((d, j)) => {
                let q = qualified_name(d);
                if has_name(acc, q) {
                    Err(fail_at(t, j, "duplicate symbol '"@ + q + "'"@))
                } else {
                    match d {
                        DeclM::Fn { name, version, .. } => {
                            let (reg2, dup) = reg_insert(reg, name, version, acc.len());
                            if dup is Some {
                                Err(fail_at(t, j, "duplicate version "@ + decimal(version as nat)
                                    + " for symbol '"@ + name + "'"@))
                            } else {
                                parse_decls(t, j, acc.push(d), reg2)
                            }
                        },
                        _ => parse_decls(t, j, acc.push(d), reg),
                    }
                }
            },
            Err(d) => Err(d),
        }
    } else if tok_at(t, i) is EndOfFile {
        Ok(UnitM { decls: acc, registry: reg, suffix: skip_at(t, i) })
    } else {
        Err(fail_at(t, i, found("<end-of-file>"@, tok_at(t, i))))
    }
}

/// The compilation unit a source text denotes, or the first failure.
pub open spec fn parse_source(s: Seq<char>) -> Result<UnitM, Diag> {
    let t = tokens(s);
    match t[0] {
        Lexed::Fail(d) => Err(d),
        Lexed::Tok { .. } => parse_decls(t, 0, Seq::empty(), Seq::empty()),
    }
}

} // verus!
