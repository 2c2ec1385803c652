//! Sydrogen project configuration (`.blower` files) and source discovery.

use vstd::prelude::*;

use crate::ast::{Program, Statement};
use crate::errors::{rendered, ForgeError};
use crate::paths::{extension_of, path_extension};
use crate::text::{
    append, blank, chars_of, concat, str_eq, decimal, decimal_string, is_ascii_alnum, is_ascii_alpha, is_blank,
    is_space, owned, push_char, space,
};

verus! {

/// A parsed project file: the project name and its source locations.
#[derive(Debug, Clone)]
pub struct ProjectConfig {
    pub name: String,
    pub source_patterns: Vec<String>,
}

/// One source file of a project: where it is, its path relative to the
/// project root, its text and its syntax tree.
#[derive(Debug)]
pub struct ProjectSource {
    pub path: String,
    pub relative_path: String,
    pub source: String,
    pub program: Program,
}

/// Whether `c` may appear in a project name.
pub open spec fn is_name_char(c: char) -> bool {
    is_ascii_alnum(c) || c == '_' || c == '-'
}

/// Whether `name` is a valid project name: non-empty, letters, digits, `_` and `-`.
pub open spec fn valid_project_name(name: Seq<char>) -> bool {
    name.len() > 0 && forall|i: int| 0 <= i < name.len() ==> is_name_char(#[trigger] name[i])
}

/// Whether a parsed configuration satisfies the constraints the parser enforces.
pub open spec fn well_formed_config(c: ProjectConfig) -> bool {
    &&& valid_project_name(c.name@)
    &&& c.source_patterns@.len() > 0
    &&& forall|i: int|
        0 <= i < c.source_patterns@.len() ==> !is_blank(#[trigger] c.source_patterns@[i]@)
}

#[derive(Debug, Clone)]
enum TokenKind {
    Ident(String),
    Str(String),
    LBrace,
    RBrace,
    Equals,
    Semicolon,
    Eof,
}

#[derive(Debug, Clone)]
struct Token {
    kind: TokenKind,
    line: usize,
}

/// A token of the project file syntax, as plain values.
pub enum Tok {
    Ident(Seq<char>),
    Str(Seq<char>),
    LBrace,
    RBrace,
    Equals,
    Semicolon,
    Eof,
}

spec fn kind_view(k: TokenKind) -> Tok {
    match k {
        TokenKind::Ident(s) => Tok::Ident(s@),
        TokenKind::Str(s) => Tok::Str(s@),
        TokenKind::LBrace => Tok::LBrace,
        TokenKind::RBrace => Tok::RBrace,
        TokenKind::Equals => Tok::Equals,
        TokenKind::Semicolon => Tok::Semicolon,
        TokenKind::Eof => Tok::Eof,
    }
}

spec fn token_views(ts: Seq<Token>) -> Seq<(Tok, int)> {
    ts.map_values(|t: Token| (kind_view(t.kind), t.line as int))
}

/// Whether `c` may start an identifier.
pub open spec fn ident_start(c: char) -> bool {
    is_ascii_alpha(c) || c == '_'
}

/// Whether `c` may continue an identifier.
pub open spec fn ident_continue(c: char) -> bool {
    is_ascii_alnum(c) || c == '_'
}

/// Whether `s` is an identifier of the project file syntax.
pub open spec fn is_ident(s: Seq<char>) -> bool {
    &&& s.len() > 0
    &&& ident_start(s[0])
    &&& forall|i: int| 1 <= i < s.len() ==> ident_continue(#[trigger] s[i])
}

/// The diagnostic for malformed project file syntax.
pub open spec fn syntax_message(line: nat, message: Seq<char>) -> Seq<char> {
    "invalid .blower syntax at line "@ + decimal(line) + ": "@ + message
}

/// Builds the diagnostic for malformed project file syntax at `line`.
pub fn syntax_error(line: usize, message: &str) -> (e: ForgeError)
    ensures
        e.message@ == syntax_message(line as nat, message@),
        e.line == 0,
{
    let mut m = owned("invalid .blower syntax at line ");
    let l = decimal_string(line as u64);
    append(&mut m, l.as_str());
    append(&mut m, ": ");
    append(&mut m, message);
    ForgeError::parse(m)
}

fn continues_ident(c: char) -> (b: bool)
    ensures
        b == ident_continue(c),
{
    ('a' <= c && c <= 'z') || ('A' <= c && c <= 'Z') || ('0' <= c && c <= '9') || c == '_'
}

/// Where a line comment starting at `pos` ends (just after its newline, or
/// at the end of the text), and the line number there.
pub open spec fn line_comment_end(cs: Seq<char>, pos: int, line: int) -> (int, int)
    decreases cs.len() - pos,
{
    if pos < 0 || pos >= cs.len() {
        (pos, line)
    } else if cs[pos] == '\n' {
        (pos + 1, line + 1)
    } else {
        line_comment_end(cs, pos + 1, line)
    }
}

/// Where a block comment whose text starts at `pos` ends (just after the
/// first `]-`, counting `prev` as the character before `pos`), and the line
/// number there; none if it is not closed.
pub open spec fn block_comment_end(cs: Seq<char>, pos: int, line: int, prev: char) -> Option<(int, int)>
    decreases cs.len() - pos,
{
    if pos < 0 || pos >= cs.len() {
        None
    } else {
        let c = cs[pos];
        let l = if c == '\n' {
            line + 1
        } else {
            line
        };
        if prev == ']' && c == '-' {
            Some((pos + 1, l))
        } else {
            block_comment_end(cs, pos + 1, l, c)
        }
    }
}

/// Where the whitespace and comments starting at `pos` end, with the line
/// number there, or the diagnostic for an unterminated block comment.
pub open spec fn trivia_end(cs: Seq<char>, pos: int, line: int) -> Result<(int, int), Seq<char>>
    decreases cs.len() - pos,
{
    if pos < 0 || pos >= cs.len() {
        Ok((pos, line))
    } else if is_space(cs[pos]) {
        trivia_end(
            cs,
            pos + 1,
            if cs[pos] == '\n' {
                line + 1
            } else {
                line
            },
        )
    } else if pos + 1 < cs.len() && cs[pos] == '/' && cs[pos + 1] == '/' {
        let (q, l) = line_comment_end(cs, pos + 2, line);
        if pos < q <= cs.len() {
            trivia_end(cs, q, l)
        } else {
            Ok((pos, line))
        }
    } else if pos + 1 < cs.len() && cs[pos] == '-' && cs[pos + 1] == '[' {
        match block_comment_end(cs, pos + 2, line, '\0') {
            Some((q, l)) => if pos < q <= cs.len() {
                trivia_end(cs, q, l)
            } else {
                Ok((pos, line))
            },
            None => Err(syntax_message(line as nat, "unterminated block comment"@)),
        }
    } else {
        Ok((pos, line))
    }
}

/// The character an escape `\e` stands for, if `e` is a supported escape.
pub open spec fn escape_of(e: char) -> Option<char> {
    if e == '"' {
        Some('"')
    } else if e == '\\' {
        Some('\\')
    } else if e == 'n' {
        Some('\n')
    } else if e == 't' {
        Some('\t')
    } else {
        None
    }
}

/// `v` put in front of the text of a successful read.
pub open spec fn prefixed(v: Seq<char>, r: Result<(Seq<char>, int), Seq<char>>) -> Result<(Seq<char>, int), Seq<char>> {
    match r {
        Ok((w, q)) => Ok((v + w, q)),
        Err(m) => Err(m),
    }
}

/// The rest of a string literal from `pos` (after its opening quote): its
/// value and where it ends (after the closing quote), or the diagnostic for
/// an unsupported escape or an unterminated string (one that meets a newline
/// or the end of the text).
pub open spec fn string_body(cs: Seq<char>, pos: int, line: int) -> Result<(Seq<char>, int), Seq<char>>
    decreases cs.len() - pos,
{
    if pos < 0 || pos >= cs.len() {
        Err(syntax_message(line as nat, "unterminated string"@))
    } else {
        let c = cs[pos];
        if c == '"' {
            Ok((seq![], pos + 1))
        } else if c == '\\' {
            if pos + 1 < cs.len() {
                let e = cs[pos + 1];
                match escape_of(e) {
                    Some(x) => prefixed(seq![x], string_body(cs, pos + 2, line)),
                    None => Err(
                        syntax_message(
                            line as nat,
                            "unsupported string escape '\\"@ + seq![e] + "'"@,
                        ),
                    ),
                }
            } else {
                Err(syntax_message(line as nat, "unterminated string"@))
            }
        } else if c == '\n' {
            Err(syntax_message(line as nat, "unterminated string"@))
        } else {
            prefixed(seq![c], string_body(cs, pos + 1, line))
        }
    }
}

/// Where the identifier characters starting at `pos` end.
pub open spec fn ident_end(cs: Seq<char>, pos: int) -> int
    decreases cs.len() - pos,
{
    if 0 <= pos < cs.len() && ident_continue(cs[pos]) {
        ident_end(cs, pos + 1)
    } else {
        pos
    }
}

/// The token starting at `p` (after trivia), and where it ends, or the
/// diagnostic for a bad string or an unexpected character.
pub open spec fn token_at(cs: Seq<char>, p: int, line: int) -> Result<(Tok, int), Seq<char>> {
    let c = cs[p];
    if c == '{' {
        Ok((Tok::LBrace, p + 1))
    } else if c == '}' {
        Ok((Tok::RBrace, p + 1))
    } else if c == '=' {
        Ok((Tok::Equals, p + 1))
    } else if c == ';' {
        Ok((Tok::Semicolon, p + 1))
    } else if c == '"' {
        match string_body(cs, p + 1, line) {
            Ok((v, q)) => Ok((Tok::Str(v), q)),
            Err(m) => Err(m),
        }
    } else if ident_start(c) {
        let q = ident_end(cs, p + 1);
        Ok((Tok::Ident(cs.subrange(p, q)), q))
    } else {
        Err(syntax_message(line as nat, "unexpected character '"@ + seq![c] + "'"@))
    }
}

/// The tokens of the text from `pos` on line `line`, each with its line,
/// ending with the end of input; or the first lexical diagnostic.
pub open spec fn lex(cs: Seq<char>, pos: int, line: int) -> Result<Seq<(Tok, int)>, Seq<char>>
    decreases cs.len() - pos,
{
    match trivia_end(cs, pos, line) {
        Err(m) => Err(m),
        Ok((p, l)) => if p < 0 || p >= cs.len() {
            Ok(seq![(Tok::Eof, l)])
        } else {
            match token_at(cs, p, l) {
                Err(m) => Err(m),
                Ok((t, q)) => if pos < q <= cs.len() {
                    match lex(cs, q, l) {
                        Ok(rest) => Ok(seq![(t, l)] + rest),
                        Err(m) => Err(m),
                    }
                } else {
                    Err(seq![])
                },
            }
        },
    }
}

/// Tokens put in front of the tokens of a successful lexing.
pub open spec fn tokens_prefixed(ts: Seq<(Tok, int)>, r: Result<Seq<(Tok, int)>, Seq<char>>) -> Result<Seq<(Tok, int)>, Seq<char>> {
    match r {
        Ok(rest) => Ok(ts + rest),
        Err(m) => Err(m),
    }
}

struct Lexer {
    chars: Vec<char>,
    pos: usize,
    line: usize,
}

/// Well-formed token streams end with exactly one `Eof`.
spec fn tokens_well_formed(tokens: Seq<Token>) -> bool {
    &&& tokens.len() > 0
    &&& tokens.last().kind is Eof
    &&& forall|i: int| 0 <= i < tokens.len() - 1 ==> !(#[trigger] tokens[i].kind is Eof)
    &&& forall|i: int|
        0 <= i < tokens.len() ==> (#[trigger] tokens[i].kind matches TokenKind::Ident(s)
            ==> is_ident(s@))
}

proof fn lemma_line_comment_end(cs: Seq<char>, pos: int, line: int)
    requires
        0 <= pos <= cs.len(),
    ensures
        pos <= line_comment_end(cs, pos, line).0 <= cs.len(),
        line <= line_comment_end(cs, pos, line).1 <= line + 1,
    decreases cs.len() - pos,
{
    if pos < cs.len() && cs[pos] != '\n' {
        lemma_line_comment_end(cs, pos + 1, line);
    }
}

proof fn lemma_block_comment_end(cs: Seq<char>, pos: int, line: int, prev: char)
    requires
        0 <= pos <= cs.len(),
    ensures
        block_comment_end(cs, pos, line, prev) matches Some((q, l)) ==> pos < q <= cs.len() && line
            <= l && l - line <= q - pos,
    decreases cs.len() - pos,
{
    if pos < cs.len() {
        let c = cs[pos];
        let l = if c == '\n' {
            line + 1
        } else {
            line
        };
        if !(prev == ']' && c == '-') {
            lemma_block_comment_end(cs, pos + 1, l, c);
        }
    }
}

impl Lexer {
    fn new(input: &str) -> (l: Self)
        ensures
            l.chars@ == input@,
            l.pos == 0,
            l.line == 1,
    {
        Lexer { chars: chars_of(input), pos: 0, line: 1 }
    }

    fn peek_at(&self, k: usize) -> (c: Option<char>)
        ensures
            self.pos + k < self.chars@.len() ==> c == Some(self.chars@[self.pos + k]),
            self.pos + k >= self.chars@.len() ==> c is None,
    {
        if k < self.chars.len() && self.pos < self.chars.len() - k {
            Some(self.chars[self.pos + k])
        } else {
            None
        }
    }

    /// Skips whitespace, line comments (`// ...`) and block comments (`-[ ... ]-`).
    fn skip_trivia(&mut self) -> (r: Result<(), ForgeError>)
        requires
            old(self).pos <= old(self).chars@.len(),
            old(self).line < usize::MAX - old(self).chars@.len(),
        ensures
            final(self).chars@ == old(self).chars@,
            old(self).pos <= final(self).pos <= final(self).chars@.len(),
            old(self).line <= final(self).line,
            final(self).line - old(self).line <= final(self).pos - old(self).pos,
            match trivia_end(old(self).chars@, old(self).pos as int, old(self).line as int) {
                Ok((p, l)) => r is Ok && final(self).pos == p && final(self).line == l,
                Err(m) => r matches Err(e) && e.message@ == m,
            },
    {
        let ghost cs = self.chars@;
        let ghost goal = trivia_end(cs, self.pos as int, self.line as int);
        loop
            invariant
                self.chars@ == old(self).chars@,
                cs == self.chars@,
                old(self).pos <= self.pos <= self.chars@.len(),
                old(self).line <= self.line,
                self.line - old(self).line <= self.pos - old(self).pos,
                old(self).line < usize::MAX - old(self).chars@.len(),
                goal == trivia_end(cs, self.pos as int, self.line as int),
                goal == trivia_end(old(self).chars@, old(self).pos as int, old(self).line as int),
            decreases self.chars@.len() - self.pos,
        {
            let ghost start = self.pos;
            while self.pos < self.chars.len() && space(self.chars[self.pos])
                invariant
                    start <= self.pos,
                    self.chars@ == old(self).chars@,
                    cs == self.chars@,
                    old(self).pos <= self.pos <= self.chars@.len(),
                    old(self).line <= self.line,
                    self.line - old(self).line <= self.pos - old(self).pos,
                    old(self).line < usize::MAX - old(self).chars@.len(),
                    goal == trivia_end(cs, self.pos as int, self.line as int),
                decreases self.chars@.len() - self.pos,
            {
                if self.chars[self.pos] == '\n' {
                    self.line += 1;
                }
                self.pos += 1;
            }
            let first = self.peek_at(0);
            let second = self.peek_at(1);
            if first == Some('/') && second == Some('/') {
                let ghost p0 = self.pos as int;
                let ghost l0 = self.line as int;
                proof {
                    lemma_line_comment_end(cs, p0 + 2, l0);
                }
                self.pos += 2;
                let mut done = false;
                while !done && self.pos < self.chars.len()
                    invariant
                        start + 2 <= self.pos,
                        p0 + 2 <= self.pos,
                        self.chars@ == old(self).chars@,
                        cs == self.chars@,
                        old(self).pos <= self.pos <= self.chars@.len(),
                        old(self).line <= self.line,
                        self.line - old(self).line <= self.pos - old(self).pos,
                        old(self).line < usize::MAX - old(self).chars@.len(),
                        !done ==> self.line == l0 && line_comment_end(cs, p0 + 2, l0)
                            == line_comment_end(cs, self.pos as int, l0),
                        done ==> line_comment_end(cs, p0 + 2, l0) == (
                            self.pos as int,
                            self.line as int,
                        ),
                    decreases self.chars@.len() - self.pos,
                {
                    let c = self.chars[self.pos];
                    self.pos += 1;
                    if c == '\n' {
                        self.line += 1;
                        done = true;
                    }
                }
                proof {
                    assert(line_comment_end(cs, p0 + 2, l0) == (self.pos as int, self.line as int));
                    assert(trivia_end(cs, p0, l0) == trivia_end(cs, self.pos as int, self.line as int));
                }
            } else if first == Some('-') && second == Some('[') {
                let ghost p0 = self.pos as int;
                let ghost l0 = self.line as int;
                proof {
                    lemma_block_comment_end(cs, p0 + 2, l0, '\0');
                }
                self.pos += 2;
                let start_line = self.line;
                let mut previous = '\0';
                let mut closed = false;
                while !closed && self.pos < self.chars.len()
                    invariant
                        start + 2 <= self.pos,
                        p0 + 2 <= self.pos,
                        self.chars@ == old(self).chars@,
                        cs == self.chars@,
                        old(self).pos <= self.pos <= self.chars@.len(),
                        old(self).line <= self.line,
                        self.line - old(self).line <= self.pos - old(self).pos,
                        old(self).line < usize::MAX - old(self).chars@.len(),
                        start_line == l0,
                        !closed ==> block_comment_end(cs, p0 + 2, l0, '\0') == block_comment_end(
                            cs,
                            self.pos as int,
                            self.line as int,
                            previous,
                        ),
                        closed ==> block_comment_end(cs, p0 + 2, l0, '\0') == Some(
                            (self.pos as int, self.line as int),
                        ),
                    decreases self.chars@.len() - self.pos,
                {
                    let c = self.chars[self.pos];
                    self.pos += 1;
                    if c == '\n' {
                        self.line += 1;
                    }
                    if previous == ']' && c == '-' {
                        closed = true;
                    }
                    previous = c;
                }
                if !closed {
                    return Err(syntax_error(start_line, "unterminated block comment"));
                }
                proof {
                    assert(trivia_end(cs, p0, l0) == trivia_end(cs, self.pos as int, self.line as int));
                }
            } else {
                return Ok(());
            }
        }
    }

    /// Reads the rest of a string literal whose opening quote was on `start_line`.
    fn string(&mut self, start_line: usize) -> (r: Result<String, ForgeError>)
        requires
            old(self).pos <= old(self).chars@.len(),
            start_line == old(self).line,
        ensures
            final(self).chars@ == old(self).chars@,
            final(self).line == old(self).line,
            old(self).pos <= final(self).pos <= final(self).chars@.len(),
            match string_body(old(self).chars@, old(self).pos as int, start_line as int) {
                Ok((v, q)) => r matches Ok(s) && s@ == v && final(self).pos == q,
                Err(m) => r matches Err(e) && e.message@ == m,
            },
    {
        let ghost cs = self.chars@;
        let ghost goal = string_body(cs, self.pos as int, start_line as int);
        let mut value = String::new();
        while self.pos < self.chars.len()
            invariant
                self.chars@ == old(self).chars@,
                cs == self.chars@,
                self.line == old(self).line,
                start_line == self.line,
                old(self).pos <= self.pos <= self.chars@.len(),
                goal == string_body(old(self).chars@, old(self).pos as int, start_line as int),
                goal == prefixed(value@, string_body(cs, self.pos as int, start_line as int)),
            decreases self.chars@.len() - self.pos,
        {
            let c = self.chars[self.pos];
            self.pos += 1;
            if c == '"' {
                assert(value@ + seq![] =~= value@);
                return Ok(value);
            } else if c == '\\' {
                if self.pos < self.chars.len() {
                    let e = self.chars[self.pos];
                    self.pos += 1;
                    let ghost before = value@;
                    if e == '"' {
                        push_char(&mut value, '"');
                    } else if e == '\\' {
                        push_char(&mut value, '\\');
                    } else if e == 'n' {
                        push_char(&mut value, '\n');
                    } else if e == 't' {
                        push_char(&mut value, '\t');
                    } else {
                        let mut m = owned("unsupported string escape '\\");
                        push_char(&mut m, e);
                        push_char(&mut m, '\'');
                        proof {
                            reveal_strlit("'");
                            assert(m@ =~= "unsupported string escape '\\"@ + seq![e] + "'"@);
                        }
                        return Err(syntax_error(self.line, m.as_str()));
                    }
                    proof {
                        let x = escape_of(e)->0;
                        assert(value@ == before + seq![x]);
                        match string_body(cs, self.pos as int, start_line as int) {
                            Ok((w, q)) => {
                                assert(before + (seq![x] + w) =~= value@ + w);
                            },
                            Err(_) => {},
                        }
                    }
                } else {
                    return Err(syntax_error(start_line, "unterminated string"));
                }
            } else if c == '\n' {
                return Err(syntax_error(start_line, "unterminated string"));
            } else {
                let ghost before = value@;
                push_char(&mut value, c);
                proof {
                    match string_body(cs, self.pos as int, start_line as int) {
                        Ok((w, q)) => {
                            assert(before + (seq![c] + w) =~= value@ + w);
                        },
                        Err(_) => {},
                    }
                }
            }
        }
        Err(syntax_error(start_line, "unterminated string"))
    }

    /// Splits the input into tokens, ending with `Eof`.
    fn tokenize(self) -> (r: Result<Vec<Token>, ForgeError>)
        requires
            self.pos <= self.chars@.len(),
            self.line == 1,
            self.chars@.len() < usize::MAX / 4,
        ensures
            r matches Ok(tokens) ==> tokens_well_formed(tokens@),
            match lex(self.chars@, self.pos as int, 1) {
                Ok(ts) => r matches Ok(tokens) && token_views(tokens@) == ts,
                Err(m) => r matches Err(e) && e.message@ == m,
            },
    {
        let mut lexer = self;
        let ghost cs = self.chars@;
        let ghost goal = lex(cs, self.pos as int, 1);
        let mut tokens: Vec<Token> = Vec::new();
        loop
            invariant
                lexer.chars@ == self.chars@,
                cs == self.chars@,
                lexer.pos <= lexer.chars@.len(),
                lexer.chars@.len() < usize::MAX / 4,
                lexer.line >= 1,
                lexer.line - 1 <= lexer.pos,
                forall|i: int| 0 <= i < tokens@.len() ==> !(#[trigger] tokens@[i].kind is Eof),
                forall|i: int|
                    0 <= i < tokens@.len() ==> (#[trigger] tokens@[i].kind matches TokenKind::Ident(
                        s,
                    ) ==> is_ident(s@)),
                goal == lex(self.chars@, self.pos as int, 1),
                goal == tokens_prefixed(
                    token_views(tokens@),
                    lex(cs, lexer.pos as int, lexer.line as int),
                ),
            decreases lexer.chars@.len() - lexer.pos,
        {
            let ghost start = lexer.pos;
            let ghost start_line = lexer.line;
            lexer.skip_trivia()?;
            let line = lexer.line;
            if lexer.pos >= lexer.chars.len() {
                let ghost before = tokens@;
                tokens.push(Token { kind: TokenKind::Eof, line });
                assert(token_views(tokens@) =~= token_views(before) + seq![(Tok::Eof, line as int)]);
                return Ok(tokens);
            }
            let c = lexer.chars[lexer.pos];
            let ghost p = lexer.pos as int;
            lexer.pos += 1;
            let kind = if c == '{' {
                TokenKind::LBrace
            } else if c == '}' {
                TokenKind::RBrace
            } else if c == '=' {
                TokenKind::Equals
            } else if c == ';' {
                TokenKind::Semicolon
            } else if c == '"' {
                let s = lexer.string(line)?;
                TokenKind::Str(s)
            } else if ('a' <= c && c <= 'z') || ('A' <= c && c <= 'Z') || c == '_' {
                let mut value = String::new();
                push_char(&mut value, c);
                assert(value@ =~= cs.subrange(p, p + 1));
                while lexer.pos < lexer.chars.len() && continues_ident(lexer.chars[lexer.pos])
                    invariant
                        lexer.chars@ == self.chars@,
                        cs == self.chars@,
                        start < lexer.pos <= lexer.chars@.len(),
                        0 <= p < lexer.pos,
                        lexer.line == line,
                        lexer.chars@.len() < usize::MAX / 4,
                        lexer.line >= 1,
                        lexer.line - 1 <= lexer.pos,
                        is_ident(value@),
                        value@ == cs.subrange(p, lexer.pos as int),
                        ident_end(cs, p + 1) == ident_end(cs, lexer.pos as int),
                    decreases lexer.chars@.len() - lexer.pos,
                {
                    let n = lexer.chars[lexer.pos];
                    let ghost before = value@;
                    let ghost q = lexer.pos as int;
                    assert(n == cs[q]);
                    push_char(&mut value, n);
                    lexer.pos += 1;
                    assert(value@ == before.push(n));
                    assert(before == cs.subrange(p, q));
                    assert(value@ =~= cs.subrange(p, q + 1));
                }
                TokenKind::Ident(value)
            } else {
                let mut m = owned("unexpected character '");
                push_char(&mut m, c);
                push_char(&mut m, '\'');
                proof {
                    reveal_strlit("'");
                    assert(m@ =~= "unexpected character '"@ + seq![c] + "'"@);
                }
                return Err(syntax_error(line, m.as_str()));
            };
            assert(token_at(cs, p, line as int) == Ok::<(Tok, int), Seq<char>>((kind_view(kind), lexer.pos as int)));
            assert(lexer.line == line);
            assert(lex(cs, start as int, start_line as int) == match lex(cs, lexer.pos as int, line as int) {
                Ok(rest) => Ok(seq![(kind_view(kind), line as int)] + rest),
                Err(m) => Err(m),
            });
            let ghost before = tokens@;
            tokens.push(Token { kind, line });
            assert(token_views(tokens@) =~= token_views(before) + seq![(kind_view(kind), line as int)]);
            assert(lexer.pos > start);
            proof {
                match lex(cs, lexer.pos as int, line as int) {
                    Ok(rest) => {
                        assert(token_views(before) + (seq![(kind_view(kind), line as int)] + rest)
                            =~= token_views(tokens@) + rest);
                    },
                    Err(_) => {},
                }
            }
        }
    }
}

} // verus!

verus! {

/// The token at `i` (the end of input past the ends).
pub open spec fn tok(ts: Seq<(Tok, int)>, i: int) -> Tok {
    if 0 <= i < ts.len() {
        ts[i].0
    } else {
        Tok::Eof
    }
}

/// The line of the token at `i`.
pub open spec fn tok_line(ts: Seq<(Tok, int)>, i: int) -> nat {
    if 0 <= i < ts.len() && ts[i].1 >= 0 {
        ts[i].1 as nat
    } else {
        0
    }
}

/// The diagnostic `message` at the token at `i`.
pub open spec fn message_at(ts: Seq<(Tok, int)>, i: int, message: Seq<char>) -> Seq<char> {
    syntax_message(tok_line(ts, i), message)
}

/// The diagnostic for a missing `what` at the token at `i`.
pub open spec fn expected_at(ts: Seq<(Tok, int)>, i: int, what: Seq<char>) -> Seq<char> {
    message_at(ts, i, "expected "@ + what)
}

/// What is wrong with a project name, if anything.
pub open spec fn project_name_problem(name: Seq<char>) -> Option<Seq<char>> {
    if name.len() == 0 {
        Some("Project.Name cannot be empty"@)
    } else if !valid_project_name(name) {
        Some("Project.Name may contain only letters, numbers, '_' and '-'"@)
    } else {
        None
    }
}

/// The fields of a `Project` section from `pos`: the name set so far and
/// where the fields end (at `}` or the end of input), or a diagnostic.
/// The only field is `Name = "<name>";`, at most once.
pub open spec fn project_fields(ts: Seq<(Tok, int)>, pos: int, name: Option<Seq<char>>) -> Result<
    (Option<Seq<char>>, int),
    Seq<char>,
>
    decreases ts.len() - pos,
{
    match tok(ts, pos) {
        Tok::Eof => Ok((name, pos)),
        Tok::RBrace => Ok((name, pos)),
        Tok::Ident(field) => if field != "Name"@ {
            Err(message_at(ts, pos + 1, "unknown Project field '"@ + field + "'"@))
        } else if name is Some {
            Err(message_at(ts, pos + 1, "duplicate Project.Name"@))
        } else if tok(ts, pos + 1) != Tok::Equals {
            Err(expected_at(ts, pos + 1, "'=' after Project.Name"@))
        } else {
            match tok(ts, pos + 2) {
                Tok::Str(v) => if tok(ts, pos + 3) != Tok::Semicolon {
                    Err(expected_at(ts, pos + 3, "';' after Project.Name"@))
                } else {
                    project_fields(ts, pos + 4, Some(v))
                },
                _ => Err(expected_at(ts, pos + 2, "Project.Name value"@)),
            }
        },
        _ => Err(expected_at(ts, pos, "Project field"@)),
    }
}

/// A `Project` section from its `{`: the project name and where the
/// section ends, or a diagnostic.
pub open spec fn project_section(ts: Seq<(Tok, int)>, pos: int) -> Result<(Seq<char>, int), Seq<char>> {
    if tok(ts, pos) != Tok::LBrace {
        Err(expected_at(ts, pos, "'{' after Project"@))
    } else {
        match project_fields(ts, pos + 1, None) {
            Err(m) => Err(m),
            Ok((name, q)) => if tok(ts, q) != Tok::RBrace {
                Err(expected_at(ts, q, "'}' after Project section"@))
            } else {
                match name {
                    None => Err("Project.Name is required"@),
                    Some(n) => match project_name_problem(n) {
                        Some(m) => Err(m),
                        None => Ok((n, q + 1)),
                    },
                }
            },
        }
    }
}

/// The fields of a `Files` section from `pos`, after the locations `locs`:
/// all the locations and where the fields end, or a diagnostic. The only
/// field is `location = "<pattern>";`, any number of times, never blank.
pub open spec fn files_fields(ts: Seq<(Tok, int)>, pos: int, locs: Seq<Seq<char>>) -> Result<
    (Seq<Seq<char>>, int),
    Seq<char>,
>
    decreases ts.len() - pos,
{
    match tok(ts, pos) {
        Tok::Eof => Ok((locs, pos)),
        Tok::RBrace => Ok((locs, pos)),
        Tok::Ident(field) => if field != "location"@ {
            Err(message_at(ts, pos + 1, "unknown Files field '"@ + field + "'"@))
        } else if tok(ts, pos + 1) != Tok::Equals {
            Err(expected_at(ts, pos + 1, "'=' after Files.location"@))
        } else {
            match tok(ts, pos + 2) {
                Tok::Str(v) => if is_blank(v) {
                    Err("Files.location cannot be empty"@)
                } else if tok(ts, pos + 3) != Tok::Semicolon {
                    Err(expected_at(ts, pos + 3, "';' after Files.location"@))
                } else {
                    files_fields(ts, pos + 4, locs.push(v))
                },
                _ => Err(expected_at(ts, pos + 2, "Files.location value"@)),
            }
        },
        _ => Err(expected_at(ts, pos, "Files field"@)),
    }
}

/// A `Files` section from its `{`: its locations and where the section
/// ends, or a diagnostic.
pub open spec fn files_section(ts: Seq<(Tok, int)>, pos: int) -> Result<(Seq<Seq<char>>, int), Seq<char>> {
    if tok(ts, pos) != Tok::LBrace {
        Err(expected_at(ts, pos, "'{' after Files"@))
    } else {
        match files_fields(ts, pos + 1, seq![]) {
            Err(m) => Err(m),
            Ok((locs, q)) => if tok(ts, q) != Tok::RBrace {
                Err(expected_at(ts, q, "'}' after Files section"@))
            } else if locs.len() == 0 {
                Err("Files requires at least one location"@)
            } else {
                Ok((locs, q + 1))
            },
        }
    }
}

/// The sections from `pos`, after those already read: the project name and
/// the locations, or a diagnostic. Each of `Project` and `Files` must appear
/// exactly once, and no other section.
pub open spec fn sections(
    ts: Seq<(Tok, int)>,
    pos: int,
    name: Option<Seq<char>>,
    locs: Option<Seq<Seq<char>>>,
) -> Result<(Seq<char>, Seq<Seq<char>>), Seq<char>>
    decreases ts.len() - pos,
{
    match tok(ts, pos) {
        Tok::Eof => match (name, locs) {
            (None, _) => Err("missing Project section"@),
            (Some(_), None) => Err("missing Files section"@),
            (Some(n), Some(l)) => Ok((n, l)),
        },
        Tok::Ident(section) => if section == "Project"@ {
            if name is Some {
                Err(message_at(ts, pos + 1, "duplicate Project section"@))
            } else {
                match project_section(ts, pos + 1) {
                    Err(m) => Err(m),
                    Ok((n, q)) => if pos < q <= ts.len() {
                        sections(ts, q, Some(n), locs)
                    } else {
                        Err(seq![])
                    },
                }
            }
        } else if section == "Files"@ {
            if locs is Some {
                Err(message_at(ts, pos + 1, "duplicate Files section"@))
            } else {
                match files_section(ts, pos + 1) {
                    Err(m) => Err(m),
                    Ok((l, q)) => if pos < q <= ts.len() {
                        sections(ts, q, name, Some(l))
                    } else {
                        Err(seq![])
                    },
                }
            }
        } else {
            Err(message_at(ts, pos + 1, "unknown section '"@ + section + "'"@))
        },
        _ => Err(expected_at(ts, pos, "section name"@)),
    }
}

/// What a `.blower` project file says: its project name and its source
/// locations, in order; or the diagnostic for the first error.
pub open spec fn config_of(input: Seq<char>) -> Result<(Seq<char>, Seq<Seq<char>>), Seq<char>> {
    match lex(input, 0, 1) {
        Ok(ts) => sections(ts, 0, None, None),
        Err(m) => Err(m),
    }
}

/// Whether two tokens are the same punctuation (or both end of input).
fn same_punct(a: &TokenKind, b: &TokenKind) -> (r: bool)
    requires
        !(*b is Ident),
        !(*b is Str),
    ensures
        r == (kind_view(*a) == kind_view(*b)),
        r ==> ((*a is Eof) == (*b is Eof)),
{
    match (a, b) {
        (TokenKind::LBrace, TokenKind::LBrace) => true,
        (TokenKind::RBrace, TokenKind::RBrace) => true,
        (TokenKind::Equals, TokenKind::Equals) => true,
        (TokenKind::Semicolon, TokenKind::Semicolon) => true,
        (TokenKind::Eof, TokenKind::Eof) => true,
        _ => false,
    }
}

struct ConfigParser {
    tokens: Vec<Token>,
    position: usize,
}

impl ConfigParser {
    spec fn inv(&self) -> bool {
        &&& tokens_well_formed(self.tokens@)
        &&& self.position < self.tokens@.len()
    }

    spec fn ts(&self) -> Seq<(Tok, int)> {
        token_views(self.tokens@)
    }

    proof fn lemma_view(&self, i: int)
        requires
            self.inv(),
            0 <= i < self.tokens@.len(),
        ensures
            tok(self.ts(), i) == kind_view(self.tokens@[i].kind),
            tok_line(self.ts(), i) == self.tokens@[i].line as nat,
            self.ts().len() == self.tokens@.len(),
    {
    }

    fn peek(&self) -> (t: &Token)
        requires
            self.inv(),
        ensures
            *t == self.tokens@[self.position as int],
    {
        &self.tokens[self.position]
    }

    fn at_eof(&self) -> (b: bool)
        requires
            self.inv(),
        ensures
            b == (self.tokens@[self.position as int].kind is Eof),
    {
        match self.peek().kind {
            TokenKind::Eof => true,
            _ => false,
        }
    }

    fn at_block_end(&self) -> (b: bool)
        requires
            self.inv(),
        ensures
            b == (self.tokens@[self.position as int].kind is Eof || self.tokens@[self.position as int].kind is RBrace),
    {
        match self.peek().kind {
            TokenKind::Eof => true,
            TokenKind::RBrace => true,
            _ => false,
        }
    }

    fn error(&self, message: &str) -> (e: ForgeError)
        requires
            self.inv(),
        ensures
            e.message@ == message_at(self.ts(), self.position as int, message@),
    {
        proof {
            self.lemma_view(self.position as int);
        }
        syntax_error(self.peek().line, message)
    }

    fn expected(&self, expected: &str) -> (e: ForgeError)
        requires
            self.inv(),
        ensures
            e.message@ == expected_at(self.ts(), self.position as int, expected@),
    {
        proof {
            self.lemma_view(self.position as int);
        }
        let m = concat("expected ", expected);
        syntax_error(self.peek().line, m.as_str())
    }

    fn ident(&mut self, expected: &str) -> (r: Result<String, ForgeError>)
        requires
            old(self).inv(),
        ensures
            final(self).inv(),
            final(self).tokens@ == old(self).tokens@,
            final(self).position >= old(self).position,
            r matches Ok(s) ==> is_ident(s@) && final(self).position == old(self).position + 1,
            match tok(old(self).ts(), old(self).position as int) {
                Tok::Ident(s) => r matches Ok(v) && v@ == s,
                _ => r matches Err(e) && e.message@ == expected_at(
                    old(self).ts(),
                    old(self).position as int,
                    expected@,
                ),
            },
    {
        proof {
            self.lemma_view(self.position as int);
        }
        let t = self.peek();
        match &t.kind {
            TokenKind::Ident(value) => {
                let v = value.clone();
                let n = self.tokens.len();
                assert(self.position < n - 1);
                self.position += 1;
                Ok(v)
            },
            _ => Err(self.expected(expected)),
        }
    }

    fn string(&mut self, expected: &str) -> (r: Result<String, ForgeError>)
        requires
            old(self).inv(),
        ensures
            final(self).inv(),
            final(self).tokens@ == old(self).tokens@,
            final(self).position >= old(self).position,
            r is Ok ==> final(self).position == old(self).position + 1,
            match tok(old(self).ts(), old(self).position as int) {
                Tok::Str(s) => r matches Ok(v) && v@ == s,
                _ => r matches Err(e) && e.message@ == expected_at(
                    old(self).ts(),
                    old(self).position as int,
                    expected@,
                ),
            },
    {
        proof {
            self.lemma_view(self.position as int);
        }
        let t = self.peek();
        match &t.kind {
            TokenKind::Str(value) => {
                let v = value.clone();
                let n = self.tokens.len();
                assert(self.position < n - 1);
                self.position += 1;
                Ok(v)
            },
            _ => Err(self.expected(expected)),
        }
    }

    fn expect(&mut self, kind: TokenKind, expected: &str) -> (r: Result<(), ForgeError>)
        requires
            old(self).inv(),
            !(kind is Eof),
            !(kind is Ident),
            !(kind is Str),
        ensures
            final(self).inv(),
            final(self).tokens@ == old(self).tokens@,
            final(self).position >= old(self).position,
            r is Ok ==> final(self).position == old(self).position + 1,
            if tok(old(self).ts(), old(self).position as int) == kind_view(kind) {
                r is Ok
            } else {
                r matches Err(e) && e.message@ == expected_at(
                    old(self).ts(),
                    old(self).position as int,
                    expected@,
                )
            },
    {
        proof {
            self.lemma_view(self.position as int);
        }
        if same_punct(&self.peek().kind, &kind) {
            let n = self.tokens.len();
            assert(self.position < n - 1);
            self.position += 1;
            Ok(())
        } else {
            Err(self.expected(expected))
        }
    }

    fn project_section(&mut self) -> (r: Result<String, ForgeError>)
        requires
            old(self).inv(),
        ensures
            final(self).inv(),
            final(self).tokens@ == old(self).tokens@,
            final(self).position >= old(self).position,
            r matches Ok(name) ==> valid_project_name(name@),
            match project_section(old(self).ts(), old(self).position as int) {
                Ok((n, q)) => r matches Ok(name) && name@ == n && final(self).position == q,
                Err(m) => r matches Err(e) && e.message@ == m,
            },
    {
        let ghost ts = self.ts();
        let ghost start = self.position as int;
        self.expect(TokenKind::LBrace, "'{' after Project")?;
        let mut name: Option<String> = None;
        while !self.at_block_end()
            invariant
                self.inv(),
                self.tokens@ == old(self).tokens@,
                ts == self.ts(),
                start == old(self).position,
                self.position >= old(self).position,
                tok(ts, start) == Tok::LBrace,
                project_fields(ts, start + 1, None) == project_fields(
                    ts,
                    self.position as int,
                    match name {
                        Some(n) => Some(n@),
                        None => None,
                    },
                ),
            decreases self.tokens@.len() - self.position,
        {
            let ghost pos = self.position as int;
            proof {
                self.lemma_view(pos);
            }
            let field = self.ident("Project field")?;
            if !str_eq(field.as_str(), "Name") {
                let mut m = owned("unknown Project field '");
                append(&mut m, field.as_str());
                append(&mut m, "'");
                return Err(self.error(m.as_str()));
            }
            if name.is_some() {
                return Err(self.error("duplicate Project.Name"));
            }
            self.expect(TokenKind::Equals, "'=' after Project.Name")?;
            let value = self.string("Project.Name value")?;
            name = Some(value);
            self.expect(TokenKind::Semicolon, "';' after Project.Name")?;
        }
        proof {
            self.lemma_view(self.position as int);
        }
        self.expect(TokenKind::RBrace, "'}' after Project section")?;
        match name {
            Some(name) => validate_project_name(name),
            None => Err(ForgeError::parse(owned("Project.Name is required"))),
        }
    }

    fn files_section(&mut self) -> (r: Result<Vec<String>, ForgeError>)
        requires
            old(self).inv(),
        ensures
            final(self).inv(),
            final(self).tokens@ == old(self).tokens@,
            final(self).position >= old(self).position,
            r matches Ok(locations) ==> locations@.len() > 0 && forall|i: int|
                0 <= i < locations@.len() ==> !is_blank(#[trigger] locations@[i]@),
            match files_section(old(self).ts(), old(self).position as int) {
                Ok((l, q)) => r matches Ok(locations) && locations@.map_values(|s: String| s@) == l
                    && final(self).position == q,
                Err(m) => r matches Err(e) && e.message@ == m,
            },
    {
        let ghost ts = self.ts();
        let ghost start = self.position as int;
        self.expect(TokenKind::LBrace, "'{' after Files")?;
        let mut locations: Vec<String> = Vec::new();
        assert(locations@.map_values(|s: String| s@) =~= Seq::<Seq<char>>::empty());
        while !self.at_block_end()
            invariant
                self.inv(),
                self.tokens@ == old(self).tokens@,
                ts == self.ts(),
                start == old(self).position,
                self.position >= old(self).position,
                tok(ts, start) == Tok::LBrace,
                forall|i: int| 0 <= i < locations@.len() ==> !is_blank(#[trigger] locations@[i]@),
                files_fields(ts, start + 1, seq![]) == files_fields(
                    ts,
                    self.position as int,
                    locations@.map_values(|s: String| s@),
                ),
            decreases self.tokens@.len() - self.position,
        {
            let ghost pos = self.position as int;
            proof {
                self.lemma_view(pos);
            }
            let field = self.ident("Files field")?;
            if !str_eq(field.as_str(), "location") {
                let mut m = owned("unknown Files field '");
                append(&mut m, field.as_str());
                append(&mut m, "'");
                return Err(self.error(m.as_str()));
            }
            self.expect(TokenKind::Equals, "'=' after Files.location")?;
            let value = self.string("Files.location value")?;
            if blank(value.as_str()) {
                return Err(ForgeError::parse(owned("Files.location cannot be empty")));
            }
            let ghost before = locations@;
            locations.push(value);
            assert(locations@.map_values(|s: String| s@) =~= before.map_values(|s: String| s@).push(
                value@,
            ));
            self.expect(TokenKind::Semicolon, "';' after Files.location")?;
        }
        proof {
            self.lemma_view(self.position as int);
        }
        self.expect(TokenKind::RBrace, "'}' after Files section")?;
        if locations.len() == 0 {
            return Err(ForgeError::parse(owned("Files requires at least one location")));
        }
        Ok(locations)
    }

    fn parse(self) -> (r: Result<ProjectConfig, ForgeError>)
        requires
            self.inv(),
            self.position == 0,
        ensures
            r matches Ok(config) ==> well_formed_config(config),
            match sections(self.ts(), 0, None, None) {
                Ok((n, l)) => r matches Ok(config) && config.name@ == n
                    && config.source_patterns@.map_values(|s: String| s@) == l,
                Err(m) => r matches Err(e) && e.message@ == m,
            },
    {
        let ghost ts = self.ts();
        let mut parser = self;
        let mut name: Option<String> = None;
        let mut locations: Option<Vec<String>> = None;
        while !parser.at_eof()
            invariant
                parser.inv(),
                parser.tokens@ == self.tokens@,
                ts == parser.ts(),
                name matches Some(n) ==> valid_project_name(n@),
                locations matches Some(l) ==> l@.len() > 0 && forall|i: int|
                    0 <= i < l@.len() ==> !is_blank(#[trigger] l@[i]@),
                sections(ts, 0, None, None) == sections(
                    ts,
                    parser.position as int,
                    match name {
                        Some(n) => Some(n@),
                        None => None,
                    },
                    match locations {
                        Some(l) => Some(l@.map_values(|s: String| s@)),
                        None => None,
                    },
                ),
            decreases parser.tokens@.len() - parser.position,
        {
            let ghost pos = parser.position as int;
            proof {
                parser.lemma_view(pos);
            }
            let section = parser.ident("section name")?;
            if str_eq(section.as_str(), "Project") {
                if name.is_some() {
                    return Err(parser.error("duplicate Project section"));
                }
                name = Some(parser.project_section()?);
            } else if str_eq(section.as_str(), "Files") {
                if locations.is_some() {
                    return Err(parser.error("duplicate Files section"));
                }
                locations = Some(parser.files_section()?);
            } else {
                let mut m = owned("unknown section '");
                append(&mut m, section.as_str());
                append(&mut m, "'");
                return Err(parser.error(m.as_str()));
            }
        }
        proof {
            parser.lemma_view(parser.position as int);
        }
        let name = match name {
            Some(n) => n,
            None => {
                return Err(ForgeError::parse(owned("missing Project section")));
            },
        };
        let source_patterns = match locations {
            Some(l) => l,
            None => {
                return Err(ForgeError::parse(owned("missing Files section")));
            },
        };
        Ok(ProjectConfig { name, source_patterns })
    }
}

/// Parses the text of a `.blower` project file: the project name and its
/// source locations exactly as `config_of` reads them, or its diagnostic.
pub fn parse_project_config(input: &str) -> (r: Result<ProjectConfig, ForgeError>)
    requires
        input@.len() < usize::MAX / 4,
    ensures
        r matches Ok(config) ==> well_formed_config(config),
        match config_of(input@) {
            Ok((name, locations)) => r matches Ok(config) && config.name@ == name
                && config.source_patterns@.map_values(|s: String| s@) == locations,
            Err(m) => r matches Err(e) && e.message@ == m,
        },
{
    let tokens = Lexer::new(input).tokenize()?;
    ConfigParser { tokens, position: 0 }.parse()
}

/// Checks a project name: non-empty, and only ASCII letters, digits, `_` and `-`.
pub fn validate_project_name(name: String) -> (r: Result<String, ForgeError>)
    ensures
        name@.len() == 0 ==> (r matches Err(e) && e.message@ == "Project.Name cannot be empty"@),
        name@.len() > 0 && !valid_project_name(name@) ==> (r matches Err(e) && e.message@
            == "Project.Name may contain only letters, numbers, '_' and '-'"@),
        valid_project_name(name@) ==> (r matches Ok(n) && n@ == name@),
{
    let cs = chars_of(name.as_str());
    if cs.len() == 0 {
        return Err(ForgeError::parse(owned("Project.Name cannot be empty")));
    }
    let mut i: usize = 0;
    while i < cs.len()
        invariant
            i <= cs.len(),
            cs@ == name@,
            forall|j: int| 0 <= j < i ==> is_name_char(#[trigger] cs@[j]),
        decreases cs.len() - i,
    {
        let c = cs[i];
        if !(('a' <= c && c <= 'z') || ('A' <= c && c <= 'Z') || ('0' <= c && c <= '9') || c
            == '_' || c == '-') {
            return Err(
                ForgeError::parse(owned("Project.Name may contain only letters, numbers, '_' and '-'")),
            );
        }
        i += 1;
    }
    Ok(name)
}

} // verus!

verus! {

/// A loaded project: its configuration, its project file, the directory the
/// project file is in, and its sources in path order.
#[derive(Debug)]
pub struct Project {
    pub config: ProjectConfig,
    pub project_file: String,
    pub root: String,
    pub source_files: Vec<ProjectSource>,
}

/// `part` appended to the path `base` (`PathBuf::push` on a Unix path).
pub open spec fn path_join(base: Seq<char>, part: Seq<char>) -> Seq<char> {
    if base.len() == 0 || (part.len() > 0 && part[0] == '/') {
        part
    } else if base.last() == '/' {
        base + part
    } else {
        base + "/"@ + part
    }
}

/// `part` appended to the path `base`.
fn join_path(base: &str, part: &str) -> (r: String)
    ensures
        r@ == path_join(base@, part@),
{
    let b = chars_of(base);
    let p = chars_of(part);
    if b.len() == 0 || (p.len() > 0 && p[0] == '/') {
        return owned(part);
    }
    if b[b.len() - 1] == '/' {
        concat(base, part)
    } else {
        let mut r = concat(base, "/");
        append(&mut r, part);
        r
    }
}

/// The diagnostic for a project file without the `.blower` extension.
pub open spec fn not_a_project_file_message() -> Seq<char> {
    "furnace build requires a .blower project file"@
}

/// Checks that a project file has the `.blower` extension.
pub fn check_project_file(project_file: &str) -> (r: Result<(), ForgeError>)
    ensures
        match r {
            Ok(()) => path_extension(project_file@) == Some("blower"@),
            Err(e) => path_extension(project_file@) != Some("blower"@) && e.message@
                == not_a_project_file_message() && e.line == 0,
        },
{
    let is_blower = match extension_of(project_file) {
        Some(e) => str_eq(e.as_str(), "blower"),
        None => false,
    };
    if is_blower {
        Ok(())
    } else {
        Err(ForgeError::parse(owned("furnace build requires a .blower project file")))
    }
}

/// Parses one source file of a project; a syntax error names the file.
pub fn parse_source(path: String, relative_path: String, source: String) -> (r: Result<
    ProjectSource,
    ForgeError,
>)
    ensures
        match r {
            Ok(s) => s.path == path && s.relative_path == relative_path && s.source == source
                && crate::parser::parsed_from(source@, s.program),
            Err(e) => exists|f: ForgeError|
                e.message@ == path@ + ": "@ + rendered(f.message@, f.line as nat, f.col as nat) && (
                crate::parser::lex(source@) matches Err(le) ==> crate::parser::error_view(f) == le),
        },
        crate::parser::lex(source@) is Err ==> r is Err,
        crate::parser::lex(source@) matches Ok(ts) ==> (crate::parser::keyword_run(ts, 0) is Some ==> (r matches Ok(
            s) && s.program.statements@ == crate::parser::keyword_run(ts, 0)->0)),
{
    match crate::parser::parse_program(source.as_str()) {
        Ok(program) => Ok(ProjectSource { path, relative_path, source, program }),
        Err(error) => {
            let mut m = concat(path.as_str(), ": ");
            let shown = error.to_string();
            append(&mut m, shown.as_str());
            assert(m@ == path@ + ": "@ + shown@);
            Err(ForgeError::parse(m))
        },
    }
}

impl Project {
    /// The project-wide program: every source's statements, in source order.
    pub fn program(self) -> (p: Program)
        ensures
            p.statements@ == self.source_files@.map_values(
                |s: ProjectSource| s.program.statements@,
            ).flatten(),
    {
        let ghost all = self.source_files@.map_values(|s: ProjectSource| s.program.statements@);
        let Project { config: _, project_file: _, root: _, source_files } = self;
        let ghost original = source_files@;
        let mut rest = source_files;
        let total = rest.len();
        let mut statements: Vec<Statement> = Vec::new();
        let mut k: usize = 0;
        while rest.len() > 0
            invariant
                total == original.len(),
                all == original.map_values(|s: ProjectSource| s.program.statements@),
                k + rest@.len() == original.len(),
                rest@ == original.skip(k as int),
                statements@ == all.take(k as int).flatten(),
            decreases rest.len(),
        {
            let source = rest.remove(0);
            assert(source == original[k as int]);
            let mut more = source.program.statements;
            let ghost before = statements@;
            statements.append(&mut more);
            proof {
                assert(all.take(k + 1) =~= all.take(k as int).push(all[k as int]));
                all.take(k as int).lemma_flatten_push(all[k as int]);
                assert(rest@ =~= original.skip(k + 1));
            }
            k += 1;
        }
        proof {
            assert(all.take(k as int) =~= all);
        }
        Program { statements }
    }

    /// The project's program with its imports resolved (see `resolve_project`).
    pub fn resolved_program(self) -> (r: Result<Program, ForgeError>)
        ensures
            match r {
                Ok(p) => exists|ms: Seq<crate::imports::ModuleSource>|
                    crate::imports::modules_of_sources(self.source_files@, ms)
                        && crate::imports::names_distinct(crate::imports::module_names(ms))
                        && crate::imports::resolution_ok(ms, crate::imports::ResolutionMode::Project)
                        && crate::imports::resolvable(ms, crate::imports::ResolutionMode::Project)
                        && crate::imports::no_imports(p.statements@) && exists|order: Seq<usize>|
                        crate::imports::imports_ordered(ms, crate::imports::ResolutionMode::Project, order)
                            && crate::imports::program_built(
                            ms,
                            crate::imports::ResolutionMode::Project,
                            order,
                            p.statements@,
                        ),
                Err(_) => !crate::imports::all_stems(self.source_files@) || !crate::imports::names_distinct(
                    crate::imports::source_module_names(self.source_files@),
                ) || exists|ms: Seq<crate::imports::ModuleSource>|
                    crate::imports::modules_of_sources(self.source_files@, ms)
                        && crate::imports::names_distinct(crate::imports::module_names(ms))
                        && !crate::imports::resolution_ok(ms, crate::imports::ResolutionMode::Project),
            },
    {
        crate::imports::resolve_project(self.source_files)
    }

    /// Where the project's executable is written: `build/<Name>` under the root.
    pub fn output_path(&self) -> (r: String)
        ensures
            r@ == path_join(path_join(self.root@, "build"@), self.config.name@),
    {
        let build = join_path(self.root.as_str(), "build");
        join_path(build.as_str(), self.config.name.as_str())
    }
}

} // verus!
