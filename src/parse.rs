use vstd::prelude::*;
use crate::ast::{
    decl_types_sane, fields_sane, fields_view, is_array_recursively, is_sane_deep, is_sane_for_c,
    qualified_name, ApiDefn, Apis, BaseType, ConstDecl, Decl, Field, FuncDecl, OpaqueDecl,
    ReturnType, Skip, SkipElem, StructDecl, TriviaM, Type, Version,
};
use crate::grammar::{
    advance, at2, base_of, block_end, digits_end, expect, expect_ident, expect_u64, fail_at, found,
    ident_end, keyword_or_ident, lemma_block_end, lemma_field_index, lemma_lex_from, lemma_line_end,
    lemma_pass_to, lex, line_end, maybe_parse_field, parse_basetype, parse_const, parse_decl,
    parse_decls, parse_fields, parse_fn, parse_more_fields, parse_opaque, parse_ret, parse_source,
    parse_struct, parse_type, parse_version, pass_to, render_diag, scan_skip, scan_white,
    source_label, start_pos, starts_decl, tok_at, token_desc, tokens, version_number, Diag, Lexed,
    Parsed, Pos, TokenM,
};
use crate::text::{
    all_digits, chars_of, digit, digits_value, ident_char, ident_start, is_digit, punc,
    push_decimal, push_spaces, white,
};
use crate::{Error, Result};

verus! {

broadcast use vstd::string::group_string_axioms;

/// Relies on `char`'s `ToString`, which writes the character itself.
#[verifier::external_body]
fn char_text(c: char) -> (r: String)
    ensures
        r@ == seq![c],
{
    c.to_string()
}

/// The text of a diagnostic, when `e` carries one.
pub open spec fn error_text(e: Error) -> Seq<char> {
    match e {
        Error::ParseFailure(m) => m@,
        Error::Unknown => Seq::empty(),
    }
}

#[derive(Debug, PartialEq)]
pub enum Token {
    EndOfFile,
    Ident(String),
    U64(u64),
    Fn,
    Struct,
    Opaque,
    Const,
    Arrow,
    Punc(char),
}

impl View for Token {
    type V = TokenM;

    open spec fn view(&self) -> TokenM {
        match self {
            Token::EndOfFile => TokenM::EndOfFile,
            Token::Ident(s) => TokenM::Ident(s@),
            Token::U64(n) => TokenM::U64(*n),
            Token::Fn => TokenM::Fn,
            Token::Struct => TokenM::Struct,
            Token::Opaque => TokenM::Opaque,
            Token::Const => TokenM::Const,
            Token::Arrow => TokenM::Arrow,
            Token::Punc(c) => TokenM::Punc(*c),
        }
    }
}

impl Token {
    /// How the token is named in a diagnostic.
    pub fn desc(&self) -> (r: String)
        ensures
            r@ == token_desc(self@),
    {
        match self {
            Token::EndOfFile => String::from_str("<end-of-file>"),
            Token::Ident(_) => String::from_str("<identifier>"),
            Token::U64(_) => String::from_str("<u64>"),
            Token::Fn => String::from_str("'fn'"),
            Token::Struct => String::from_str("'struct'"),
            Token::Opaque => String::from_str("'opaque'"),
            Token::Const => String::from_str("'const'"),
            Token::Arrow => String::from_str("'->'"),
            Token::Punc(c) => {
                let q = "'";
                proof {
                    reveal_strlit("'");
                }
                let mut s = String::from_str(q);
                let t = char_text(*c);
                s.append(t.as_str());
                s.append(q);
                proof {
                    assert(s@ =~= seq!['\'', *c, '\'']);
                }
                s
            },
        }
    }
}

/// The token for a word: a keyword, or else an identifier.
fn tok_ident_or_keyword(s: String) -> (r: Token)
    ensures
        r@ == keyword_or_ident(s@),
{
    if s == String::from_str("fn") {
        Token::Fn
    } else if s == String::from_str("struct") {
        Token::Struct
    } else if s == String::from_str("opaque") {
        Token::Opaque
    } else if s == String::from_str("const") {
        Token::Const
    } else {
        Token::Ident(s)
    }
}

/// A trivia run found after `acc`.
pub open spec fn prepend(
    acc: Seq<TriviaM>,
    r: core::result::Result<(Seq<TriviaM>, Pos), Pos>,
) -> core::result::Result<(Seq<TriviaM>, Pos), Pos> {
    match r {
        Ok((rest, q)) => Ok((acc + rest, q)),
        Err(w) => Err(w),
    }
}

/// A cursor position is consistent with the text before it.
pub open spec fn pos_ok(s: Seq<char>, p: Pos) -> bool {
    p.idx <= s.len() && p.line_start <= p.idx && 1 <= p.line_num <= p.idx + 1
}

/// Turns source text into tokens, one `next` at a time, keeping the trivia
/// before each token.
pub struct Tokenizer {
    input: String,
    chars: Vec<char>,
    idx: usize,
    tok_idx: usize,
    line_start_idx: usize,
    line_num: usize,
    srcname: Option<String>,
}

impl Tokenizer {
    /// The source text.
    pub closed spec fn text(&self) -> Seq<char> {
        self.chars@
    }

    /// The cursor, with the line it is on.
    pub closed spec fn pos(&self) -> Pos {
        Pos {
            idx: self.idx as nat,
            line_start: self.line_start_idx as nat,
            line_num: self.line_num as nat,
        }
    }

    /// Where the last token read starts.
    pub closed spec fn tok_start(&self) -> nat {
        self.tok_idx as nat
    }

    /// The name diagnostics give the source.
    pub closed spec fn label(&self) -> Seq<char> {
        source_label(
            match self.srcname {
                Some(n) => Some(n@),
                None => None,
            },
        )
    }

    pub closed spec fn wf(&self) -> bool {
        &&& self.chars@ == self.input@
        &&& self.chars@.len() < usize::MAX
        &&& pos_ok(self.chars@, self.pos())
        &&& self.tok_idx <= self.idx
    }

    pub fn new(inp: &str, srcname: Option<&str>) -> (r: Self)
        requires
            inp@.len() < usize::MAX,
        ensures
            r.wf(),
            r.text() == inp@,
            r.pos() == (Pos { idx: 0, line_start: 0, line_num: 1 }),
            r.tok_start() == 0,
            r.label() == source_label(
                match srcname {
                    Some(n) => Some(n@),
                    None => None,
                },
            ),
    {
        let name = match srcname {
            Some(n) => Some(String::from_str(n)),
            None => None,
        };
        Tokenizer {
            input: String::from_str(inp),
            chars: chars_of(inp),
            idx: 0,
            tok_idx: 0,
            line_start_idx: 0,
            line_num: 1,
            srcname: name,
        }
    }

    /// The character at the cursor.
    pub fn peek_char(&self) -> (r: Option<char>)
        requires
            self.wf(),
        ensures
            r == (if self.pos().idx < self.text().len() {
                Some(self.text()[self.pos().idx as int])
            } else {
                None
            }),
    {
        if self.idx < self.chars.len() {
            Some(self.chars[self.idx])
        } else {
            None
        }
    }

    /// The character `n` places after the cursor.
    pub fn peek_char_nth(&self, n: usize) -> (r: Option<char>)
        requires
            self.wf(),
        ensures
            r == (if self.pos().idx + n < self.text().len() {
                Some(self.text()[self.pos().idx + n])
            } else {
                None
            }),
    {
        if n < self.chars.len() - self.idx {
            Some(self.chars[self.idx + n])
        } else {
            None
        }
    }

    /// Moves the cursor one character on, unless it is at the end.
    pub fn advance_char(&mut self)
        requires
            old(self).wf(),
        ensures
            final(self).wf(),
            final(self).text() == old(self).text(),
            final(self).label() == old(self).label(),
            final(self).tok_start() == old(self).tok_start(),
            final(self).pos() == (if old(self).pos().idx < old(self).text().len() {
                Pos { idx: old(self).pos().idx + 1, ..old(self).pos() }
            } else {
                old(self).pos()
            }),
    {
        if self.idx < self.chars.len() {
            self.idx = self.idx + 1;
        }
    }

    fn at_pair(&self, a: char, b: char) -> (r: bool)
        requires
            self.wf(),
        ensures
            r == at2(self.text(), self.pos().idx, a, b),
    {
        self.chars.len() - self.idx >= 2 && self.chars[self.idx] == a && self.chars[self.idx + 1]
            == b
    }

    /// The source text from `from` to `to`.
    fn slice(&self, from: usize, to: usize) -> (r: String)
        requires
            self.wf(),
            from <= to <= self.text().len(),
        ensures
            r@ == self.text().subrange(from as int, to as int),
    {
        String::from_str(self.input.as_str().substring_char(from, to))
    }

    // white = " " | "\t" | "\n" | ... etc ...
    fn scan_white(&mut self) -> (r: String)
        requires
            old(self).wf(),
        ensures
            final(self).wf(),
            final(self).text() == old(self).text(),
            final(self).label() == old(self).label(),
            final(self).tok_start() == old(self).tok_start(),
            final(self).pos() == scan_white(old(self).text(), old(self).pos()),
            old(self).pos().idx <= final(self).pos().idx,
            r@ == old(self).text().subrange(
                old(self).pos().idx as int,
                final(self).pos().idx as int,
            ),
    {
        let start = self.idx;
        while self.idx < self.chars.len()
            invariant
                self.wf(),
                self.text() == old(self).text(),
                self.label() == old(self).label(),
                self.tok_start() == old(self).tok_start(),
                start == old(self).pos().idx,
                start <= self.idx,
                scan_white(self.text(), self.pos()) == scan_white(old(self).text(), old(self).pos()),
            ensures
                scan_white(self.text(), self.pos()) == self.pos(),
            decreases self.chars.len() - self.idx,
        {
            let c = self.chars[self.idx];
            if c == '\n' {
                self.idx = self.idx + 1;
                self.line_start_idx = self.idx;
                self.line_num = self.line_num + 1;
            } else if white(c) {
                self.idx = self.idx + 1;
            } else {
                break;
            }
        }
        self.slice(start, self.idx)
    }

    /// The end of the line that starts at or before `i`.
    fn line_end_from(&self, i: usize) -> (r: usize)
        requires
            self.wf(),
            i <= self.text().len(),
        ensures
            r == line_end(self.text(), i as nat),
    {
        let mut j = i;
        while j < self.chars.len() && self.chars[j] != '\n'
            invariant
                self.wf(),
                i <= j <= self.text().len(),
                line_end(self.text(), j as nat) == line_end(self.text(), i as nat),
            decreases self.chars.len() - j,
        {
            j = j + 1;
        }
        j
    }

    // linecomment = "//" [^\n]*
    fn maybe_scan_linecomment(&mut self) -> (r: Option<String>)
        requires
            old(self).wf(),
        ensures
            final(self).wf(),
            final(self).text() == old(self).text(),
            final(self).label() == old(self).label(),
            final(self).tok_start() == old(self).tok_start(),
            ({
                let s = old(self).text();
                let p = old(self).pos();
                if at2(s, p.idx, '/', '/') {
                    let e = line_end(s, p.idx + 2);
                    &&& final(self).pos() == (Pos { idx: e, ..p })
                    &&& r matches Some(t) && t@ == s.subrange((p.idx + 2) as int, e as int)
                } else {
                    final(self).pos() == p && r is None
                }
            }),
    {
        if !self.at_pair('/', '/') {
            return None;
        }
        assert(self.idx + 1 < self.chars.len());
        let start = self.idx + 2;
        let e = self.line_end_from(start);
        proof {
            lemma_line_end(self.text(), start as nat);
        }
        self.idx = e;
        Some(self.slice(start, e))
    }

    /// Builds the diagnostic for `msg` at the last token read.
    fn error(&self, msg: &str) -> (r: Error)
        requires
            self.wf(),
            self.pos().line_start <= self.tok_start(),
        ensures
            error_text(r) == render_diag(
                self.label(),
                self.text(),
                Diag { at: self.pos(), tok_idx: self.tok_start(), msg: msg@ },
            ),
            r is ParseFailure,
    {
        let mut out = match &self.srcname {
            Some(n) => n.clone(),
            None => String::from_str("(anonymous)"),
        };
        out.append(":");
        push_decimal(&mut out, self.line_num as u128);
        out.append(":");
        let before = self.input.as_str().substring_char(self.line_start_idx, self.tok_idx);
        let col = before.len();
        push_decimal(&mut out, col as u128 + 1);
        out.append(": ");
        out.append(msg);
        out.append("\n  ");
        let e = self.line_end_from(self.line_start_idx);
        proof {
            lemma_line_end(self.text(), self.line_start_idx as nat);
        }
        let line = self.slice(self.line_start_idx, e);
        out.append(line.as_str());
        out.append("\n  ");
        push_spaces(&mut out, col);
        out.append("^");
        proof {
            assert(out@ =~= render_diag(
                self.label(),
                self.text(),
                Diag { at: self.pos(), tok_idx: self.tok_start(), msg: msg@ },
            ));
        }
        Error::ParseFailure(out)
    }

    /// Moves the cursor on to `end`, counting the lines it passes.
    fn advance_to(&mut self, end: usize)
        requires
            old(self).wf(),
            old(self).pos().idx <= end <= old(self).text().len(),
        ensures
            final(self).wf(),
            final(self).text() == old(self).text(),
            final(self).label() == old(self).label(),
            final(self).tok_start() == old(self).tok_start(),
            final(self).pos() == pass_to(old(self).text(), old(self).pos(), end as nat),
    {
        while self.idx < end
            invariant
                self.wf(),
                self.text() == old(self).text(),
                self.label() == old(self).label(),
                self.tok_start() == old(self).tok_start(),
                self.pos().idx <= end <= self.text().len(),
                pass_to(self.text(), self.pos(), end as nat) == pass_to(
                    old(self).text(),
                    old(self).pos(),
                    end as nat,
                ),
            decreases end - self.idx,
        {
            if self.chars[self.idx] == '\n' {
                self.idx = self.idx + 1;
                self.line_start_idx = self.idx;
                self.line_num = self.line_num + 1;
            } else {
                self.idx = self.idx + 1;
            }
        }
    }

    // blockcomment = "/*" <not-comment-terminating-chars>* "*/"
    fn maybe_scan_blockcomment(&mut self) -> (r: Result<Option<String>>)
        requires
            old(self).wf(),
        ensures
            final(self).wf(),
            final(self).text() == old(self).text(),
            final(self).label() == old(self).label(),
            ({
                let s = old(self).text();
                let p = old(self).pos();
                if at2(s, p.idx, '/', '*') {
                    match block_end(s, p.idx + 2) {
                        Some(e) => {
                            &&& final(self).pos() == pass_to(s, p, e + 2)
                            &&& final(self).tok_start() == old(self).tok_start()
                            &&& r matches Ok(Some(t)) && t@ == s.subrange((p.idx + 2) as int, e as int)
                        },
                        None => {
                            &&& r matches Err(err) && err is ParseFailure
                            &&& error_text(r->Err_0) == render_diag(
                                old(self).label(),
                                s,
                                Diag {
                                    at: p,
                                    tok_idx: p.idx,
                                    msg: "reached <end-of-file> while inside a block-comment"@,
                                },
                            )
                        },
                    }
                } else {
                    &&& final(self).pos() == p
                    &&& final(self).tok_start() == old(self).tok_start()
                    &&& r matches Ok(None)
                }
            }),
    {
        if !self.at_pair('/', '*') {
            return Ok(None);
        }
        assert(self.idx + 1 < self.chars.len());
        let start = self.idx + 2;
        let mut j = start;
        proof {
            lemma_block_end(self.text(), start as nat);
        }
        while j < self.chars.len()
            invariant
                self.wf(),
                self.text() == old(self).text(),
                self.pos() == old(self).pos(),
                self.tok_start() == old(self).tok_start(),
                self.label() == old(self).label(),
                start == old(self).pos().idx + 2,
                at2(old(self).text(), old(self).pos().idx, '/', '*'),
                start <= j <= self.text().len(),
                block_end(self.text(), j as nat) == block_end(self.text(), start as nat),
            decreases self.chars.len() - j,
        {
            if self.chars[j] == '*' && j + 1 < self.chars.len() && self.chars[j + 1] == '/' {
                assert(block_end(self.text(), j as nat) == Some(j as nat));
                let text = self.slice(start, j);
                self.advance_to(j + 2);
                return Ok(Some(text));
            }
            j = j + 1;
        }
        // unterminated: report where the comment starts
        self.tok_idx = self.idx;
        Err(self.error("reached <end-of-file> while inside a block-comment"))
    }

    // skip = white ((linecomment|blockcomment) white)*
    fn scan_skip(&mut self) -> (r: Result<Skip>)
        requires
            old(self).wf(),
        ensures
            final(self).wf(),
            final(self).text() == old(self).text(),
            final(self).label() == old(self).label(),
            match scan_skip(old(self).text(), old(self).pos()) {
                Ok((sk, q)) => {
                    &&& r matches Ok(k) && k@ == sk
                    &&& final(self).pos() == q
                },
                Err(w) => {
                    &&& r matches Err(e) && e is ParseFailure
                    &&& error_text(r->Err_0) == render_diag(
                        old(self).label(),
                        old(self).text(),
                        Diag {
                            at: w,
                            tok_idx: w.idx,
                            msg: "reached <end-of-file> while inside a block-comment"@,
                        },
                    )
                },
            },
    {
        let ghost s = self.text();
        let mut skip: Vec<SkipElem> = Vec::new();
        loop
            invariant
                self.wf(),
                self.text() == s,
                s == old(self).text(),
                self.label() == old(self).label(),
                prepend(Skip(skip)@, scan_skip(s, self.pos())) == scan_skip(s, old(self).pos()),
            decreases s.len() - self.pos().idx,
        {
            let ghost p = self.pos();
            let ghost acc = Skip(skip)@;
            let white = self.scan_white();
            let ghost w = self.pos();
            skip.push(SkipElem::Whitespace(white));
            let ghost ws = TriviaM::Whitespace(s.subrange(p.idx as int, w.idx as int));
            assert(Skip(skip)@ =~= acc.push(ws));
            proof {
                lemma_line_end(s, w.idx + 2);
                lemma_block_end(s, w.idx + 2);
                if let Some(e) = block_end(s, w.idx + 2) {
                    lemma_pass_to(s, w, e + 2);
                }
            }
            if let Some(comm) = self.maybe_scan_linecomment() {
                let ghost lc = TriviaM::LineComment(comm@);
                skip.push(SkipElem::LineComment(comm));
                proof {
                    assert(Skip(skip)@ =~= acc + seq![ws, lc]);
                    match scan_skip(s, self.pos()) {
                        Ok((rest, q)) => {
                            assert(acc + seq![ws, lc] + rest =~= acc + (seq![ws, lc] + rest));
                        },
                        Err(_) => {},
                    }
                }
                continue;
            }
            match self.maybe_scan_blockcomment() {
                Err(e) => {
                    return Err(e);
                },
                Ok(Some(comm)) => {
                    let ghost bc = TriviaM::BlockComment(comm@);
                    skip.push(SkipElem::BlockComment(comm));
                    proof {
                        assert(Skip(skip)@ =~= acc + seq![ws, bc]);
                        match scan_skip(s, self.pos()) {
                            Ok((rest, q)) => {
                                assert(acc + seq![ws, bc] + rest =~= acc + (seq![ws, bc] + rest));
                            },
                            Err(_) => {},
                        }
                    }
                    continue;
                },
                Ok(None) => {},
            }
            return Ok(Skip(skip));
        }
    }

    /// Reads the trivia and then the token that follow the cursor. At the end
    /// of input this gives `EndOfFile`, again on each call.
    pub fn next(&mut self) -> (r: Result<(Skip, Token)>)
        requires
            old(self).wf(),
        ensures
            final(self).wf(),
            final(self).text() == old(self).text(),
            final(self).label() == old(self).label(),
            match lex(old(self).text(), old(self).pos()) {
                Lexed::Tok { skip, tok, tok_idx, after } => {
                    &&& r matches Ok((k, t)) && k@ == skip && t@ == tok
                    &&& final(self).pos() == after
                    &&& final(self).tok_start() == tok_idx
                    &&& after.line_start <= tok_idx
                },
                Lexed::Fail(d) => {
                    &&& r matches Err(e) && e is ParseFailure
                    &&& error_text(r->Err_0) == render_diag(old(self).label(), old(self).text(), d)
                },
            },
    {
        let ghost s = self.text();
        let skip = match self.scan_skip() {
            Ok(k) => k,
            Err(e) => {
                return Err(e);
            },
        };
        self.tok_idx = self.idx;
        if self.idx >= self.chars.len() {
            return Ok((skip, Token::EndOfFile));
        }
        let c = self.chars[self.idx];
        // token '->'
        if c == '-' {
            if self.at_pair('-', '>') {
                self.idx = self.idx + 2;
                return Ok((skip, Token::Arrow));
            }
            return Err(self.error("expected '->'"));
        }
        // token single char punctuation
        if punc(c) {
            self.idx = self.idx + 1;
            return Ok((skip, Token::Punc(c)));
        }
        // u64 number
        if digit(c) {
            let start = self.idx;
            let mut j = start;
            let mut val: u64 = 0;
            let mut over = false;
            while j < self.chars.len() && digit(self.chars[j])
                invariant
                    self.wf(),
                    self.text() == s,
                    start == self.idx,
                    start <= j <= s.len(),
                    is_digit(s[start as int]),
                    digits_end(s, j as nat) == digits_end(s, start as nat),
                    !over ==> val == digits_value(s.subrange(start as int, j as int)),
                    over ==> digits_value(s.subrange(start as int, j as int)) > u64::MAX,
                decreases s.len() - j,
            {
                let d = (self.chars[j] as u32 - 48) as u64;
                let ghost before = s.subrange(start as int, j as int);
                let ghost after = s.subrange(start as int, j + 1);
                assert(after.drop_last() =~= before);
                let ghost dv = digits_value(before);
                assert(digits_value(after) == dv * 10 + d);
                if !over {
                    if val > (u64::MAX - d) / 10 {
                        over = true;
                        assert(dv * 10 + d > u64::MAX) by (nonlinear_arith)
                            requires
                                dv > (u64::MAX - d) / 10,
                                d <= 9,
                        ;
                    } else {
                        assert(val * 10 + d <= u64::MAX) by (nonlinear_arith)
                            requires
                                val <= (u64::MAX - d) / 10,
                                d <= 9,
                        ;
                        val = val * 10 + d;
                    }
                } else {
                    assert(dv * 10 + d > u64::MAX) by (nonlinear_arith)
                        requires
                            dv > u64::MAX,
                    ;
                }
                j = j + 1;
            }
            if over {
                let mut m = String::from_str("tokenizer read a number that was too large for u64: '");
                let ds = self.slice(start, j);
                m.append(ds.as_str());
                m.append("'");
                return Err(self.error(m.as_str()));
            }
            self.idx = j;
            return Ok((skip, Token::U64(val)));
        }
        // identifier or keyword
        if ident_start(c) {
            let start = self.idx;
            let mut j = start + 1;
            while j < self.chars.len() && ident_char(self.chars[j])
                invariant
                    self.wf(),
                    self.text() == s,
                    start == self.idx,
                    start < j <= s.len(),
                    ident_end(s, j as nat) == ident_end(s, (start + 1) as nat),
                decreases s.len() - j,
            {
                j = j + 1;
            }
            let word = self.slice(start, j);
            self.idx = j;
            return Ok((skip, tok_ident_or_keyword(word)));
        }
        let mut m = String::from_str("tokenizer read an invalid character: '");
        let t = char_text(c);
        m.append(t.as_str());
        m.append("'");
        Err(self.error(m.as_str()))
    }

    /// Like `next`, without the trivia.
    pub fn next_tok(&mut self) -> (r: Result<Token>)
        requires
            old(self).wf(),
        ensures
            final(self).wf(),
            final(self).text() == old(self).text(),
            final(self).label() == old(self).label(),
            match lex(old(self).text(), old(self).pos()) {
                Lexed::Tok { tok, after, .. } => r matches Ok(t) && t@ == tok && final(self).pos() == after,
                Lexed::Fail(d) => r matches Err(e) && error_text(e) == render_diag(
                    old(self).label(),
                    old(self).text(),
                    d,
                ),
            },
    {
        match self.next() {
            Ok((_, t)) => Ok(t),
            Err(e) => Err(e),
        }
    }
}


/// A copy of a trivia run.
fn copy_skip(s: &Skip) -> (r: Skip)
    ensures
        r@ == s@,
{
    let mut out: Vec<SkipElem> = Vec::new();
    let mut i: usize = 0;
    while i < s.0.len()
        invariant
            i <= s.0@.len(),
            Skip(out)@ == s@.take(i as int),
        decreases s.0@.len() - i,
    {
        let e = match &s.0[i] {
            SkipElem::Whitespace(t) => SkipElem::Whitespace(t.clone()),
            SkipElem::LineComment(t) => SkipElem::LineComment(t.clone()),
            SkipElem::BlockComment(t) => SkipElem::BlockComment(t.clone()),
        };
        assert(e@ == s.0@[i as int]@);
        let ghost prev = Skip(out)@;
        out.push(e);
        i = i + 1;
        assert(Skip(out)@ =~= prev.push(s.0@[i - 1]@));
        assert(s@.take(i as int) =~= s@.take(i - 1).push(s.0@[i - 1]@));
    }
    assert(s@.take(i as int) =~= s@);
    Skip(out)
}

fn same_token(a: &Token, b: &Token) -> (r: bool)
    ensures
        r == (a@ == b@),
{
    match (a, b) {
        (Token::EndOfFile, Token::EndOfFile) => true,
        (Token::Ident(x), Token::Ident(y)) => *x == *y,
        (Token::U64(x), Token::U64(y)) => *x == *y,
        (Token::Fn, Token::Fn) => true,
        (Token::Struct, Token::Struct) => true,
        (Token::Opaque, Token::Opaque) => true,
        (Token::Const, Token::Const) => true,
        (Token::Arrow, Token::Arrow) => true,
        (Token::Punc(x), Token::Punc(y)) => *x == *y,
        _ => false,
    }
}

/// `expected {what}, found {token}`.
fn found_msg(what: &str, t: &Token) -> (r: String)
    ensures
        r@ == found(what@, t@),
{
    let mut m = String::from_str("expected ");
    m.append(what);
    m.append(", found ");
    let d = t.desc();
    m.append(d.as_str());
    m
}

fn base_type_of(n: String) -> (r: BaseType)
    ensures
        r@ == base_of(n@),
{
    if n == String::from_str("u8") {
        BaseType::U8
    } else if n == String::from_str("i8") {
        BaseType::I8
    } else if n == String::from_str("u16") {
        BaseType::U16
    } else if n == String::from_str("i16") {
        BaseType::I16
    } else if n == String::from_str("u32") {
        BaseType::U32
    } else if n == String::from_str("i32") {
        BaseType::I32
    } else if n == String::from_str("u64") {
        BaseType::U64
    } else if n == String::from_str("i64") {
        BaseType::I64
    } else {
        BaseType::Struct(n)
    }
}

/// Does the type, beneath any pointers, end in an array?
pub fn type_is_array_recursively(t: &Type) -> (r: bool)
    ensures
        r == is_array_recursively(t@),
    decreases t,
{
    match t {
        Type::Array(_, _) => true,
        Type::Pointer(sub) => type_is_array_recursively(sub),
        Type::Base(_) => false,
    }
}

/// Restricts types to those C can express: no array of arrays, and no
/// pointer to an array (C has no such thing apart from array decay).
pub fn type_is_sane_for_c(t: &Type) -> (r: bool)
    ensures
        r == is_sane_for_c(t@),
{
    match t {
        Type::Array(sub, _) => !type_is_array_recursively(sub),
        Type::Pointer(sub) => !type_is_array_recursively(sub),
        Type::Base(_) => true,
    }
}

/// The type and every type nested in it is one C can express.
pub fn type_is_sane_deep(t: &Type) -> (r: bool)
    ensures
        r == is_sane_deep(t@),
    decreases t,
{
    type_is_sane_for_c(t) && match t {
        Type::Array(sub, _) => type_is_sane_deep(sub),
        Type::Pointer(sub) => type_is_sane_deep(sub),
        Type::Base(_) => true,
    }
}

fn fields_are_sane(fs: &Vec<Field>) -> (r: bool)
    ensures
        r == fields_sane(fields_view(fs@)),
{
    let mut i: usize = 0;
    while i < fs.len()
        invariant
            i <= fs@.len(),
            forall|k: int| 0 <= k < i ==> is_sane_deep(#[trigger] fs@[k].typ@),
        decreases fs@.len() - i,
    {
        if !type_is_sane_deep(&fs[i].typ) {
            assert(fields_view(fs@)[i as int].typ == fs@[i as int].typ@);
            return false;
        }
        i = i + 1;
    }
    assert forall|k: int| 0 <= k < fields_view(fs@).len() implies is_sane_deep(
        #[trigger] fields_view(fs@)[k].typ,
    ) by {
        assert(fields_view(fs@)[k].typ == fs@[k].typ@);
    }
    true
}

/// Every type of every declaration is one C can express, and no function
/// returns an array: what the emitters accept.
pub fn types_are_sane(api: &ApiDefn) -> (r: bool)
    ensures
        r == forall|k: int| 0 <= k < api.decls@.len() ==> decl_types_sane(#[trigger] api.decls@[k]@),
{
    let mut i: usize = 0;
    while i < api.decls.len()
        invariant
            i <= api.decls@.len(),
            forall|k: int| 0 <= k < i ==> decl_types_sane(#[trigger] api.decls@[k]@),
        decreases api.decls@.len() - i,
    {
        let ok = match &api.decls[i] {
            Decl::Fn(f) => fields_are_sane(&f.args) && match &f.ret {
                ReturnType::Void => true,
                ReturnType::Value(t) => type_is_sane_deep(t) && !type_is_array_recursively(t),
            },
            Decl::Struct(d) => fields_are_sane(&d.fields),
            _ => true,
        };
        assert(ok == decl_types_sane(api.decls@[i as int]@));
        if !ok {
            return false;
        }
        i = i + 1;
    }
    true
}

/// The number of a version identifier `v<digits>`.
fn version_of(w: &String) -> (r: Option<u64>)
    requires
        w@.len() > 0,
    ensures
        r == version_number(w@),
{
    let cs = chars_of(w.as_str());
    let ghost ds = w@.skip(1);
    if cs.len() < 2 {
        return None;
    }
    let mut j: usize = 1;
    let mut val: u64 = 0;
    let mut over = false;
    while j < cs.len()
        invariant
            cs@ == w@,
            ds == w@.skip(1),
            1 <= j <= cs@.len(),
            all_digits(ds.take(j - 1)),
            !over ==> val == digits_value(ds.take(j - 1)),
            over ==> digits_value(ds.take(j - 1)) > u64::MAX,
        decreases cs@.len() - j,
    {
        let c = cs[j];
        if !digit(c) {
            assert(ds[j - 1] == c);
            assert(!all_digits(ds));
            return None;
        }
        let d = (c as u32 - 48) as u64;
        let ghost before = ds.take(j - 1);
        let ghost after = ds.take(j as int);
        assert(after.drop_last() =~= before);
        let ghost dv = digits_value(before);
        assert(digits_value(after) == dv * 10 + d);
        if !over {
            if val > (u64::MAX - d) / 10 {
                over = true;
                assert(dv * 10 + d > u64::MAX) by (nonlinear_arith)
                    requires
                        dv > (u64::MAX - d) / 10,
                        d <= 9,
                ;
            } else {
                assert(val * 10 + d <= u64::MAX) by (nonlinear_arith)
                    requires
                        val <= (u64::MAX - d) / 10,
                        d <= 9,
                ;
                val = val * 10 + d;
            }
        } else {
            assert(dv * 10 + d > u64::MAX) by (nonlinear_arith)
                requires
                    dv > u64::MAX,
            ;
        }
        j = j + 1;
    }
    assert(ds.take(j - 1) =~= ds);
    if over {
        None
    } else {
        Some(val)
    }
}

/// Some entry of the symbol table is named `name`.
fn has_symbol(symbols: &Vec<(String, usize)>, name: &String) -> (r: bool)
    ensures
        r == exists|k: int| 0 <= k < symbols@.len() && (#[trigger] symbols@[k]).0@ == name@,
{
    let mut k: usize = 0;
    while k < symbols.len()
        invariant
            k <= symbols@.len(),
            forall|m: int| 0 <= m < k ==> (#[trigger] symbols@[m]).0@ != name@,
        decreases symbols@.len() - k,
    {
        if symbols[k].0 == *name {
            return true;
        }
        k = k + 1;
    }
    false
}

/// The value a parse step gives, when it gives one.
pub open spec fn ok_view<T: View>(r: &Result<T>) -> Option<T::V> {
    match r {
        Ok(v) => Some(v@),
        Err(_) => None,
    }
}

pub open spec fn err_view<T>(r: &Result<T>) -> Option<Seq<char>> {
    match r {
        Ok(_) => None,
        Err(e) => Some(error_text(*e)),
    }
}

/// Recursive-descent parser with one token of lookahead.
pub struct Parser {
    tokenizer: Tokenizer,
    skip: Skip,
    tok: Token,
    at: Ghost<nat>,
}

impl Parser {
    /// The source text.
    pub closed spec fn text(&self) -> Seq<char> {
        self.tokenizer.text()
    }

    pub closed spec fn label(&self) -> Seq<char> {
        self.tokenizer.label()
    }

    /// The token stream of the source.
    pub closed spec fn toks(&self) -> Seq<Lexed> {
        tokens(self.tokenizer.text())
    }

    /// The index in the stream of the lookahead token.
    pub closed spec fn at(&self) -> nat {
        self.at@
    }

    closed spec fn holds(&self, l: Lexed) -> bool {
        match l {
            Lexed::Tok { skip, tok, tok_idx, after } => {
                &&& self.skip@ == skip
                &&& self.tok@ == tok
                &&& self.tokenizer.pos() == after
                &&& self.tokenizer.tok_start() == tok_idx
                &&& after.line_start <= tok_idx
            },
            Lexed::Fail(_) => false,
        }
    }

    pub closed spec fn wf(&self) -> bool {
        &&& self.tokenizer.wf()
        &&& self.at@ < self.toks().len()
        &&& self.holds(self.toks()[self.at@ as int])
    }

    /// `p1` is where `p0` stands after a step whose outcome is `res`, and the
    /// step gave `got` or failed with `err`.
    closed spec fn follows<A>(
        p0: Parser,
        p1: Parser,
        res: Parsed<A>,
        got: Option<A>,
        err: Option<Seq<char>>,
    ) -> bool {
        &&& p1.text() == p0.text()
        &&& p1.label() == p0.label()
        &&& match res {
            Ok((a, j)) => got == Some(a) && p1.wf() && p1.at@ == j,
            Err(d) => got is None && err == Some(render_diag(p0.label(), p0.text(), d)),
        }
    }

    closed spec fn unit_step(res: core::result::Result<nat, Diag>) -> Parsed<()> {
        match res {
            Ok(j) => Ok(((), j)),
            Err(d) => Err(d),
        }
    }

    closed spec fn unit_view(r: &Result<()>) -> Option<()> {
        match r {
            Ok(_) => Some(()),
            Err(_) => None,
        }
    }

    pub fn new(inp: &str, srcname: Option<&str>) -> (r: Result<Self>)
        requires
            inp@.len() < usize::MAX,
        ensures
            match tokens(inp@)[0] {
                Lexed::Tok { .. } => r matches Ok(p) && p.wf() && p.at() == 0 && p.text() == inp@
                    && p.toks() == tokens(inp@) && p.label() == source_label(
                    match srcname {
                        Some(n) => Some(n@),
                        None => None,
                    },
                ),
                Lexed::Fail(d) => r matches Err(e) && error_text(e) == render_diag(
                    source_label(
                        match srcname {
                            Some(n) => Some(n@),
                            None => None,
                        },
                    ),
                    inp@,
                    d,
                ),
            },
    {
        let mut tokenizer = Tokenizer::new(inp, srcname);
        proof {
            lemma_lex_from(inp@, start_pos(), 0);
        }
        match tokenizer.next() {
            Ok((skip, tok)) => Ok(Parser { tokenizer, skip, tok, at: Ghost(0) }),
            Err(e) => Err(e),
        }
    }

    /// Error at the lookahead token.
    fn error(&self, msg: &str) -> (r: Error)
        requires
            self.wf(),
        ensures
            error_text(r) == render_diag(
                self.label(),
                self.text(),
                fail_at(self.toks(), self.at(), msg@),
            ),
    {
        self.tokenizer.error(msg)
    }

    fn next_tok(&mut self) -> (r: Result<()>)
        requires
            old(self).wf(),
            tok_at(old(self).toks(), old(self).at()) !is EndOfFile,
        ensures
            Self::follows(
                *old(self),
                *final(self),
                Self::unit_step(advance(old(self).toks(), old(self).at())),
                Self::unit_view(&r),
                err_view(&r),
            ),
    {
        proof {
            lemma_lex_from(self.text(), start_pos(), self.at@);
        }
        match self.tokenizer.next() {
            Ok((skip, tok)) => {
                self.skip = skip;
                self.tok = tok;
                self.at = Ghost(self.at@ + 1);
                Ok(())
            },
            Err(e) => Err(e),
        }
    }

    fn expect(&mut self, expected: Token) -> (r: Result<()>)
        requires
            old(self).wf(),
            expected@ !is EndOfFile,
        ensures
            Self::follows(
                *old(self),
                *final(self),
                Self::unit_step(expect(old(self).toks(), old(self).at(), expected@)),
                Self::unit_view(&r),
                err_view(&r),
            ),
    {
        if !same_token(&self.tok, &expected) {
            let d = expected.desc();
            let m = found_msg(d.as_str(), &self.tok);
            return Err(self.error(m.as_str()));
        }
        self.next_tok()
    }

    fn expect_ident(&mut self) -> (r: Result<String>)
        requires
            old(self).wf(),
        ensures
            Self::follows(
                *old(self),
                *final(self),
                expect_ident(old(self).toks(), old(self).at()),
                ok_view(&r),
                err_view(&r),
            ),
    {
        let name = match &self.tok {
            Token::Ident(name) => name.clone(),
            _ => {
                let m = found_msg("<identifier>", &self.tok);
                return Err(self.error(m.as_str()));
            },
        };
        match self.next_tok() {
            Ok(()) => Ok(name),
            Err(e) => Err(e),
        }
    }

    fn expect_u64(&mut self) -> (r: Result<u64>)
        requires
            old(self).wf(),
        ensures
            Self::follows(
                *old(self),
                *final(self),
                expect_u64(old(self).toks(), old(self).at()),
                ok_view(&r),
                err_view(&r),
            ),
    {
        let num = match &self.tok {
            Token::U64(num) => *num,
            _ => {
                let m = found_msg("<u64>", &self.tok);
                return Err(self.error(m.as_str()));
            },
        };
        match self.next_tok() {
            Ok(()) => Ok(num),
            Err(e) => Err(e),
        }
    }

    // basetype = ident | "u8" | "i8" | ... etc ...
    fn parse_basetype(&mut self) -> (r: Result<BaseType>)
        requires
            old(self).wf(),
        ensures
            Self::follows(
                *old(self),
                *final(self),
                parse_basetype(old(self).toks(), old(self).at()),
                ok_view(&r),
                err_view(&r),
            ),
    {
        let type_str = match &self.tok {
            Token::Ident(name) => name.clone(),
            _ => {
                let m = found_msg("<typename>", &self.tok);
                return Err(self.error(m.as_str()));
            },
        };
        match self.next_tok() {
            Ok(()) => Ok(base_type_of(type_str)),
            Err(e) => Err(e),
        }
    }

    // type = "*" type | "[" type ";" number "]" | basetype
    fn parse_type(&mut self) -> (r: Result<Type>)
        requires
            old(self).wf(),
        ensures
            Self::follows(
                *old(self),
                *final(self),
                parse_type(old(self).toks(), old(self).at()),
                ok_view(&r),
                err_view(&r),
            ),
        decreases old(self).toks().len() - old(self).at(),
    {
        let typ = if same_token(&self.tok, &Token::Punc('*')) {
            match self.next_tok() {
                Ok(()) => {},
                Err(e) => {
                    return Err(e);
                },
            }
            let sub = match self.parse_type() {
                Ok(t) => t,
                Err(e) => {
                    return Err(e);
                },
            };
            Type::Pointer(Box::new(sub))
        } else if same_token(&self.tok, &Token::Punc('[')) {
            match self.next_tok() {
                Ok(()) => {},
                Err(e) => {
                    return Err(e);
                },
            }
            let sub = match self.parse_type() {
                Ok(t) => t,
                Err(e) => {
                    return Err(e);
                },
            };
            match self.expect(Token::Punc(';')) {
                Ok(()) => {},
                Err(e) => {
                    return Err(e);
                },
            }
            let num = match self.expect_u64() {
                Ok(n) => n,
                Err(e) => {
                    return Err(e);
                },
            };
            match self.expect(Token::Punc(']')) {
                Ok(()) => {},
                Err(e) => {
                    return Err(e);
                },
            }
            Type::Array(Box::new(sub), num)
        } else {
            match self.parse_basetype() {
                Ok(b) => Type::Base(b),
                Err(e) => {
                    return Err(e);
                },
            }
        };
        if !type_is_sane_for_c(&typ) {
            return Err(self.error("type is too complex to express in C code"));
        }
        Ok(typ)
    }

    // field = ident ":" type
    fn maybe_parse_field(&mut self) -> (r: Result<Option<Field>>)
        requires
            old(self).wf(),
        ensures
            Self::follows(
                *old(self),
                *final(self),
                maybe_parse_field(old(self).toks(), old(self).at()),
                match r {
                    Ok(Some(f)) => Some(Some(f@)),
                    Ok(None) => Some(None),
                    Err(_) => None,
                },
                err_view(&r),
            ),
    {
        if !matches!(self.tok, Token::Ident(_)) {
            return Ok(None);
        }
        let name = match self.expect_ident() {
            Ok(n) => n,
            Err(e) => {
                return Err(e);
            },
        };
        match self.expect(Token::Punc(':')) {
            Ok(()) => {},
            Err(e) => {
                return Err(e);
            },
        }
        let typ = match self.parse_type() {
            Ok(t) => t,
            Err(e) => {
                return Err(e);
            },
        };
        Ok(Some(Field { name, typ }))
    }

    // fields = "" | field ("," field)* ","?
    fn parse_fields(&mut self) -> (r: Result<Vec<Field>>)
        requires
            old(self).wf(),
        ensures
            Self::follows(
                *old(self),
                *final(self),
                parse_fields(old(self).toks(), old(self).at()),
                match r {
                    Ok(v) => Some(fields_view(v@)),
                    Err(_) => None,
                },
                err_view(&r),
            ),
    {
        let mut args: Vec<Field> = Vec::new();
        match self.maybe_parse_field() {
            Ok(Some(f)) => args.push(f),
            Ok(None) => {
                assert(fields_view(args@) =~= Seq::empty());
                return Ok(args);
            },
            Err(e) => {
                return Err(e);
            },
        }
        assert(fields_view(args@) =~= seq![args@[0]@]);
        let ghost total = parse_fields(old(self).toks(), old(self).at());
        loop
            invariant
                self.wf(),
                self.text() == old(self).text(),
                self.label() == old(self).label(),
                total == parse_fields(old(self).toks(), old(self).at()),
                total == parse_more_fields(self.toks(), self.at(), fields_view(args@)),
            decreases self.toks().len() - self.at(),
        {
            if !same_token(&self.tok, &Token::Punc(',')) {
                return Ok(args);
            }
            match self.next_tok() {
                Ok(()) => {},
                Err(e) => {
                    return Err(e);
                },
            }
            proof {
                lemma_field_index(self.toks(), self.at());
            }
            match self.maybe_parse_field() {
                Ok(Some(f)) => {
                    let ghost before = fields_view(args@);
                    args.push(f);
                    assert(fields_view(args@) =~= before.push(args@.last()@));
                },
                Ok(None) => {
                    return Ok(args);
                },
                Err(e) => {
                    return Err(e);
                },
            }
        }
    }

    // ret = ("->" type)?
    fn parse_ret(&mut self) -> (r: Result<ReturnType>)
        requires
            old(self).wf(),
        ensures
            Self::follows(
                *old(self),
                *final(self),
                parse_ret(old(self).toks(), old(self).at()),
                ok_view(&r),
                err_view(&r),
            ),
    {
        if !same_token(&self.tok, &Token::Arrow) {
            return Ok(ReturnType::Void);
        }
        match self.next_tok() {
            Ok(()) => {},
            Err(e) => {
                return Err(e);
            },
        }
        let typ = match self.parse_type() {
            Ok(t) => t,
            Err(e) => {
                return Err(e);
            },
        };
        if type_is_array_recursively(&typ) {
            return Err(self.error("return type is not allowed to be an array"));
        }
        Ok(ReturnType::Value(typ))
    }

    // version = "v" number
    fn parse_version(&mut self) -> (r: Result<Version>)
        requires
            old(self).wf(),
        ensures
            Self::follows(
                *old(self),
                *final(self),
                parse_version(old(self).toks(), old(self).at()),
                match r {
                    Ok(v) => Some(v.0),
                    Err(_) => None,
                },
                err_view(&r),
            ),
    {
        let v = match self.expect_ident() {
            Ok(v) => v,
            Err(e) => {
                return Err(e);
            },
        };
        let vs = v.as_str();
        if vs.unicode_len() == 0 || vs.get_char(0) != 'v' {
            return Err(self.error("not a version identifier"));
        }
        match version_of(&v) {
            Some(n) => Ok(Version(n)),
            None => Err(self.error("not a version number")),
        }
    }

    // func = "fn" "(" version ")" ident "(" fields ")" ret ";"
    fn parse_fn(&mut self) -> (r: Result<Decl>)
        requires
            old(self).wf(),
        ensures
            Self::follows(
                *old(self),
                *final(self),
                parse_fn(old(self).toks(), old(self).at()),
                ok_view(&r),
                err_view(&r),
            ),
    {
        proof {
            reveal(parse_fn);
            reveal(parse_struct);
            reveal(parse_opaque);
            reveal(parse_const);
        }
        let prefix = copy_skip(&self.skip);
        match self.expect(Token::Fn) {
            Ok(()) => {},
            Err(e) => {
                return Err(e);
            },
        }
        match self.expect(Token::Punc('(')) {
            Ok(()) => {},
            Err(e) => {
                return Err(e);
            },
        }
        let version = match self.parse_version() {
            Ok(v) => v,
            Err(e) => {
                return Err(e);
            },
        };
        match self.expect(Token::Punc(')')) {
            Ok(()) => {},
            Err(e) => {
                return Err(e);
            },
        }
        let name = match self.expect_ident() {
            Ok(v) => v,
            Err(e) => {
                return Err(e);
            },
        };
        match self.expect(Token::Punc('(')) {
            Ok(()) => {},
            Err(e) => {
                return Err(e);
            },
        }
        let args = match self.parse_fields() {
            Ok(v) => v,
            Err(e) => {
                return Err(e);
            },
        };
        match self.expect(Token::Punc(')')) {
            Ok(()) => {},
            Err(e) => {
                return Err(e);
            },
        }
        let ret = match self.parse_ret() {
            Ok(v) => v,
            Err(e) => {
                return Err(e);
            },
        };
        match self.expect(Token::Punc(';')) {
            Ok(()) => {},
            Err(e) => {
                return Err(e);
            },
        }
        Ok(Decl::Fn(FuncDecl { prefix, name, args, ret, version }))
    }

    // struct = "struct" ident "{" fields "}"
    fn parse_struct(&mut self) -> (r: Result<Decl>)
        requires
            old(self).wf(),
        ensures
            Self::follows(
                *old(self),
                *final(self),
                parse_struct(old(self).toks(), old(self).at()),
                ok_view(&r),
                err_view(&r),
            ),
    {
        proof {
            reveal(parse_fn);
            reveal(parse_struct);
            reveal(parse_opaque);
            reveal(parse_const);
        }
        let prefix = copy_skip(&self.skip);
        match self.expect(Token::Struct) {
            Ok(()) => {},
            Err(e) => {
                return Err(e);
            },
        }
        let name = match self.expect_ident() {
            Ok(v) => v,
            Err(e) => {
                return Err(e);
            },
        };
        match self.expect(Token::Punc('{')) {
            Ok(()) => {},
            Err(e) => {
                return Err(e);
            },
        }
        let fields = match self.parse_fields() {
            Ok(v) => v,
            Err(e) => {
                return Err(e);
            },
        };
        match self.expect(Token::Punc('}')) {
            Ok(()) => {},
            Err(e) => {
                return Err(e);
            },
        }
        Ok(Decl::Struct(StructDecl { prefix, name, fields }))
    }

    // opaque = "opaque" ident ";"
    fn parse_opaque(&mut self) -> (r: Result<Decl>)
        requires
            old(self).wf(),
        ensures
            Self::follows(
                *old(self),
                *final(self),
                parse_opaque(old(self).toks(), old(self).at()),
                ok_view(&r),
                err_view(&r),
            ),
    {
        proof {
            reveal(parse_fn);
            reveal(parse_struct);
            reveal(parse_opaque);
            reveal(parse_const);
        }
        let prefix = copy_skip(&self.skip);
        match self.expect(Token::Opaque) {
            Ok(()) => {},
            Err(e) => {
                return Err(e);
            },
        }
        let name = match self.expect_ident() {
            Ok(v) => v,
            Err(e) => {
                return Err(e);
            },
        };
        match self.expect(Token::Punc(';')) {
            Ok(()) => {},
            Err(e) => {
                return Err(e);
            },
        }
        Ok(Decl::Opaque(OpaqueDecl { prefix, name }))
    }

    // const = "const" ident "=" u64 ";"
    fn parse_const(&mut self) -> (r: Result<Decl>)
        requires
            old(self).wf(),
        ensures
            Self::follows(
                *old(self),
                *final(self),
                parse_const(old(self).toks(), old(self).at()),
                ok_view(&r),
                err_view(&r),
            ),
    {
        proof {
            reveal(parse_fn);
            reveal(parse_struct);
            reveal(parse_opaque);
            reveal(parse_const);
        }
        let prefix = copy_skip(&self.skip);
        match self.expect(Token::Const) {
            Ok(()) => {},
            Err(e) => {
                return Err(e);
            },
        }
        let name = match self.expect_ident() {
            Ok(v) => v,
            Err(e) => {
                return Err(e);
            },
        };
        match self.expect(Token::Punc('=')) {
            Ok(()) => {},
            Err(e) => {
                return Err(e);
            },
        }
        let val = match self.expect_u64() {
            Ok(v) => v,
            Err(e) => {
                return Err(e);
            },
        };
        match self.expect(Token::Punc(';')) {
            Ok(()) => {},
            Err(e) => {
                return Err(e);
            },
        }
        Ok(Decl::Const(ConstDecl { prefix, name, val }))
    }

    // decl = func | struct | opaque | const
    fn maybe_parse_decl(&mut self) -> (r: Result<Option<Decl>>)
        requires
            old(self).wf(),
        ensures
            starts_decl(tok_at(old(self).toks(), old(self).at())) ==> Self::follows(
                *old(self),
                *final(self),
                parse_decl(old(self).toks(), old(self).at()),
                match r {
                    Ok(Some(d)) => Some(d@),
                    _ => None,
                },
                err_view(&r),
            ),
            !starts_decl(tok_at(old(self).toks(), old(self).at())) ==> (r matches Ok(None)
                && *final(self) == *old(self)),
    {
        match self.tok {
            Token::Fn => match self.parse_fn() {
                Ok(d) => Ok(Some(d)),
                Err(e) => Err(e),
            },
            Token::Struct => match self.parse_struct() {
                Ok(d) => Ok(Some(d)),
                Err(e) => Err(e),
            },
            Token::Opaque => match self.parse_opaque() {
                Ok(d) => Ok(Some(d)),
                Err(e) => Err(e),
            },
            Token::Const => match self.parse_const() {
                Ok(d) => Ok(Some(d)),
                Err(e) => Err(e),
            },
            _ => Ok(None),
        }
    }

    /// Parses the declarations from the lookahead token to the end of input.
    pub fn parse(&mut self) -> (r: Result<ApiDefn>)
        requires
            old(self).wf(),
        ensures
            match parse_decls(old(self).toks(), old(self).at(), Seq::empty(), Seq::empty()) {
                Ok(u) => r matches Ok(d) && d.unit() == u && d.symbols_ok() && d.apis.wf(),
                Err(dg) => r matches Err(e) && error_text(e) == render_diag(
                    old(self).label(),
                    old(self).text(),
                    dg,
                ),
            },
    {
        let mut symbols: Vec<(String, usize)> = Vec::new();
        let mut apis = Apis::new();
        let mut decls: Vec<Decl> = Vec::new();
        let ghost total = parse_decls(old(self).toks(), old(self).at(), Seq::empty(), Seq::empty());
        proof {
            assert(decls@.map_values(|d: Decl| d@) =~= Seq::<crate::ast::DeclM>::empty());
        }
        loop
            invariant
                self.wf(),
                self.text() == old(self).text(),
                self.label() == old(self).label(),
                apis.wf(),
                total == parse_decls(old(self).toks(), old(self).at(), Seq::empty(), Seq::empty()),
                total == parse_decls(
                    self.toks(),
                    self.at(),
                    decls@.map_values(|d: Decl| d@),
                    apis@,
                ),
                symbols@.len() == decls@.len(),
                forall|k: int|
                    0 <= k < symbols@.len() ==> (#[trigger] symbols@[k]).0@ == qualified_name(
                        decls@[k]@,
                    ) && symbols@[k].1 == k,
            ensures
                self.wf(),
                self.text() == old(self).text(),
                self.label() == old(self).label(),
                apis.wf(),
                total == parse_decls(
                    self.toks(),
                    self.at(),
                    decls@.map_values(|d: Decl| d@),
                    apis@,
                ),
                symbols@.len() == decls@.len(),
                forall|k: int|
                    0 <= k < symbols@.len() ==> (#[trigger] symbols@[k]).0@ == qualified_name(
                        decls@[k]@,
                    ) && symbols@[k].1 == k,
                !starts_decl(tok_at(self.toks(), self.at())),
            decreases self.toks().len() - self.at(),
        {
            let ghost acc = decls@.map_values(|d: Decl| d@);
            let ghost i = self.at();
            proof {
                if starts_decl(tok_at(self.toks(), i)) {
                    crate::grammar::lemma_decl_index(self.toks(), i);
                }
            }
            let decl = match self.maybe_parse_decl() {
                Ok(Some(d)) => d,
                Ok(None) => {
                    break;
                },
                Err(e) => {
                    return Err(e);
                },
            };
            let name = decl.name();
            // add the symbol
            if has_symbol(&symbols, &name) {
                proof {
                    let k = choose|k: int| 0 <= k < symbols@.len() && (#[trigger] symbols@[k]).0@ == name@;
                    assert(qualified_name(acc[k]) == name@);
                }
                let mut m = String::from_str("duplicate symbol '");
                m.append(name.as_str());
                m.append("'");
                return Err(self.error(m.as_str()));
            }
            assert forall|k: int| 0 <= k < acc.len() implies qualified_name(#[trigger] acc[k]) != name@ by {
                assert(symbols@[k].0@ == qualified_name(decls@[k]@));
            }
            // add the api
            if let Decl::Fn(func) = &decl {
                let dup = apis.insert(func.name.clone(), func.version, decls.len());
                if dup.is_some() {
                    let mut m = String::from_str("duplicate version ");
                    push_decimal(&mut m, func.version.0 as u128);
                    m.append(" for symbol '");
                    m.append(func.name.as_str());
                    m.append("'");
                    return Err(self.error(m.as_str()));
                }
            }
            // add the decl
            let ghost dv = decl@;
            symbols.push((name, decls.len()));
            decls.push(decl);
            proof {
                assert(decls@.map_values(|d: Decl| d@) =~= acc.push(dv));
            }
        }
        if !same_token(&self.tok, &Token::EndOfFile) {
            let m = found_msg("<end-of-file>", &self.tok);
            return Err(self.error(m.as_str()));
        }
        let suffix = copy_skip(&self.skip);
        let defn = ApiDefn { symbols, apis, decls, suffix };
        proof {
            assert(defn.unit() =~= total->Ok_0);
        }
        Ok(defn)
    }
}

/// Parses a whole source text; `srcname` names it in diagnostics.
pub fn parse(inp: &str, srcname: Option<&str>) -> (r: Result<ApiDefn>)
    requires
        inp@.len() < usize::MAX,
    ensures
        match parse_source(inp@) {
            Ok(u) => r matches Ok(d) && d.unit() == u && d.symbols_ok() && d.apis.wf(),
            Err(dg) => r matches Err(e) && error_text(e) == render_diag(
                source_label(
                    match srcname {
                        Some(n) => Some(n@),
                        None => None,
                    },
                ),
                inp@,
                dg,
            ),
        },
        r matches Ok(d) ==> forall|k: int|
            0 <= k < d.decls@.len() ==> decl_types_sane(#[trigger] d.decls@[k]@),
{
    let mut p = match Parser::new(inp, srcname) {
        Ok(p) => p,
        Err(e) => {
            return Err(e);
        },
    };
    let r = p.parse();
    proof {
        crate::laws::parsed_types_are_sane(inp@);
        if let Ok(d) = &r {
            assert forall|k: int| 0 <= k < d.decls@.len() implies decl_types_sane(
                #[trigger] d.decls@[k]@,
            ) by {
                assert(d.unit().decls[k] == d.decls@[k]@);
            }
        }
    }
    r
}

} // verus!
