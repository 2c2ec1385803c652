//! The ForgeLang front end: a lexer and a recursive-descent parser producing
//! the AST.
//!
//! Lexical syntax: identifiers and keywords, integer and float literals,
//! strings with escapes, interpolated strings `\V"... {a.b} ..."`, line
//! comments `// ...` and block comments `-[ ... ]-`.

use vstd::prelude::*;

use crate::ast::{
    branches_shaped, else_shaped, lemma_branches_shaped, stmt_shaped, stmts_shaped, AssignmentNode, AssignmentTarget, BinOp, DataDecl, Expr, ForNode, FunctionDecl, IfNode, IncrOp,
    InputNode, Modifier, NumberLiteral, ObjectDecl, Param, PrintNode, Program, RetKind, Statement,
    StringPart, Subtype, TypeDecl, UnOp, UseNode, UsingNode, VarDecl, WhileNode,
};
use crate::errors::ForgeError;
use crate::cli::update::{all_digits, digits_value, lemma_digits_value_grows};
use crate::text::{append, concat, copy_string, decimal_string, is_ascii_digit, owned, push_char, str_eq};

verus! {

/// The kinds of tokens.
#[derive(Debug, Clone, Copy, PartialEq, Eq, Structural)]
pub enum TokenKind {
    /// An identifier or keyword.
    Word,
    /// An integer literal.
    Integer,
    /// A float literal.
    Float,
    /// A string literal; `parts` holds its contents.
    Str,
    /// An interpolated string literal; `parts` holds its contents.
    Interpolated,
    /// Punctuation or an operator.
    Symbol,
    /// The end of the input.
    End,
}

/// A token with its source text and position (1-based line and column).
#[derive(Debug)]
pub struct Token {
    pub kind: TokenKind,
    pub text: String,
    pub parts: Vec<StringPart>,
    pub line: usize,
    pub col: usize,
}

/// Whether `c` may start an identifier.
pub open spec fn word_start(c: char) -> bool {
    ('a' <= c && c <= 'z') || ('A' <= c && c <= 'Z') || c == '_'
}

/// Whether `c` may continue an identifier.
pub open spec fn word_char(c: char) -> bool {
    word_start(c) || ('0' <= c && c <= '9')
}

/// Whether `c` is a decimal digit.
pub open spec fn digit(c: char) -> bool {
    '0' <= c && c <= '9'
}

/// The two-character operators.
pub open spec fn two_char_symbol(a: char, b: char) -> bool {
    ||| a == '=' && b == '='
    ||| a == '!' && b == '='
    ||| a == '<' && b == '='
    ||| a == '>' && b == '='
    ||| a == '*' && b == '*'
    ||| a == '+' && b == '+'
    ||| a == '-' && b == '-'
}

/// The one-character punctuation and operators.
pub open spec fn one_char_symbol(c: char) -> bool {
    c == '(' || c == ')' || c == '{' || c == '}' || c == '[' || c == ']' || c == ';' || c == ','
        || c == '.' || c == ':' || c == '=' || c == '<' || c == '>' || c == '+' || c == '-' || c
        == '*' || c == '/' || c == '%'
}

/// Whether every token of `toks` lies in the input of `n` characters, with its
/// text one of the kinds above, and the last token is the end marker.
pub open spec fn tokens_ok(toks: Seq<Token>) -> bool {
    &&& toks.len() > 0
    &&& toks.last().kind == TokenKind::End
    &&& forall|i: int| 0 <= i < toks.len() - 1 ==> (#[trigger] toks[i]).kind != TokenKind::End
    &&& forall|i: int|
        0 <= i < toks.len() && (#[trigger] toks[i]).kind == TokenKind::Word ==> toks[i].text@.len()
            > 0 && word_start(toks[i].text@[0])
}

/// What a part of a string literal holds.
pub enum PartView {
    Literal(Seq<char>),
    Interp(Seq<char>),
}

/// The view of a string part.
pub open spec fn part_view(p: StringPart) -> PartView {
    match p {
        StringPart::Literal(t) => PartView::Literal(t@),
        StringPart::Interp(t) => PartView::Interp(t@),
    }
}

/// The views of a list of string parts.
pub open spec fn parts_view(ps: Seq<StringPart>) -> Seq<PartView> {
    ps.map_values(|p: StringPart| part_view(p))
}

/// What a token holds.
pub struct TokView {
    pub kind: TokenKind,
    pub text: Seq<char>,
    pub parts: Seq<PartView>,
    pub line: int,
    pub col: int,
}

/// The view of a token.
pub open spec fn token_view(t: Token) -> TokView {
    TokView {
        kind: t.kind,
        text: t.text@,
        parts: parts_view(t.parts@),
        line: t.line as int,
        col: t.col as int,
    }
}

/// The views of a list of tokens.
pub open spec fn tokens_view(ts: Seq<Token>) -> Seq<TokView> {
    ts.map_values(|t: Token| token_view(t))
}

/// A diagnostic as its message, line and column.
pub open spec fn error_view(e: ForgeError) -> (Seq<char>, int, int) {
    (e.message@, e.line as int, e.col as int)
}

/// `x`, or the largest `usize` where `x` is larger.
pub open spec fn sat(x: int) -> int {
    if x > usize::MAX {
        usize::MAX as int
    } else {
        x
    }
}

/// Where the identifier characters from `i` on end.
pub open spec fn word_end(cs: Seq<char>, i: int) -> int
    decreases cs.len() - i,
{
    if 0 <= i < cs.len() && word_char(cs[i]) {
        word_end(cs, i + 1)
    } else {
        i
    }
}

/// Where the decimal digits from `i` on end.
pub open spec fn digits_end(cs: Seq<char>, i: int) -> int
    decreases cs.len() - i,
{
    if 0 <= i < cs.len() && digit(cs[i]) {
        digits_end(cs, i + 1)
    } else {
        i
    }
}

/// Where the line from `i` ends: at its newline or at the end of the text.
pub open spec fn line_end(cs: Seq<char>, i: int) -> int
    decreases cs.len() - i,
{
    if 0 <= i < cs.len() && cs[i] != '\n' {
        line_end(cs, i + 1)
    } else {
        i
    }
}

/// Where a block comment whose text starts at `i`, on line `line` and
/// column `col`, ends (after its `]-`), with the line and column there; or
/// the diagnostic for a comment that is not closed.
pub open spec fn block_end(cs: Seq<char>, i: int, line: int, col: int) -> Result<
    (int, int, int),
    (Seq<char>, int, int),
>
    decreases cs.len() - i,
{
    if i < 0 || i >= cs.len() {
        Err(("unterminated comment"@, line, col))
    } else if cs[i] == ']' && i + 1 < cs.len() && cs[i + 1] == '-' {
        Ok((i + 2, line, sat(col + 2)))
    } else if cs[i] == '\n' {
        block_end(cs, i + 1, sat(line + 1), 1)
    } else {
        block_end(cs, i + 1, line, sat(col + 1))
    }
}

/// Where the name of an interpolation from `j` on ends: at a `}`, a quote,
/// a newline or the end of the text.
pub open spec fn interp_end(cs: Seq<char>, j: int) -> int
    decreases cs.len() - j,
{
    if 0 <= j < cs.len() && cs[j] != '}' && cs[j] != '"' && cs[j] != '\n' {
        interp_end(cs, j + 1)
    } else {
        j
    }
}

/// The character an escape sequence `\c` stands for.
pub open spec fn escape_char(c: char) -> char {
    if c == 'n' {
        '\n'
    } else if c == 't' {
        '\t'
    } else if c == 'r' {
        '\r'
    } else if c == '0' {
        '\0'
    } else {
        c
    }
}

/// A text without its spaces and tabs.
pub open spec fn unblank(s: Seq<char>) -> Seq<char>
    decreases s.len(),
{
    if s.len() == 0 {
        seq![]
    } else {
        let p = unblank(s.drop_last());
        if s.last() == ' ' || s.last() == '\t' {
            p
        } else {
            p.push(s.last())
        }
    }
}

/// The literal part that pending text makes, if there is any.
pub open spec fn flushed(buf: Seq<char>) -> Seq<PartView> {
    if buf.len() > 0 {
        seq![PartView::Literal(buf)]
    } else {
        seq![]
    }
}

/// Parts put in front of the parts of a successful read.
pub open spec fn parts_prefixed(
    v: Seq<PartView>,
    r: Result<(Seq<PartView>, int), (Seq<char>, int, int)>,
) -> Result<(Seq<PartView>, int), (Seq<char>, int, int)> {
    match r {
        Ok((ps, q)) => Ok((v + ps, q)),
        Err(e) => Err(e),
    }
}

/// The rest of a string literal from `i`, with `buf` the literal text read
/// since the last part: its parts and where it ends (after the closing
/// quote), or the diagnostic, placed at the literal's `line` and `col`, for
/// a string that is not closed on its line or an interpolation that is not
/// closed. With `interp`, `{name}` is an interpolated name, spaces and tabs
/// left out.
pub open spec fn string_body(
    cs: Seq<char>,
    i: int,
    interp: bool,
    buf: Seq<char>,
    line: int,
    col: int,
) -> Result<(Seq<PartView>, int), (Seq<char>, int, int)>
    decreases cs.len() - i,
{
    if i < 0 || i >= cs.len() {
        Err(("unterminated string literal"@, line, col))
    } else {
        let c = cs[i];
        if c == '"' {
            Ok((flushed(buf), i + 1))
        } else if c == '\\' {
            if i + 1 >= cs.len() {
                Err(("unterminated string literal"@, line, col))
            } else {
                string_body(cs, i + 2, interp, buf.push(escape_char(cs[i + 1])), line, col)
            }
        } else if c == '\n' {
            Err(("unterminated string literal"@, line, col))
        } else if interp && c == '{' {
            let j = interp_end(cs, i + 1);
            proof {
                lemma_interp_end(cs, i + 1);
            }
            if j >= cs.len() || cs[j] != '}' {
                Err(("unterminated interpolation"@, line, col))
            } else {
                parts_prefixed(
                    flushed(buf) + seq![PartView::Interp(unblank(cs.subrange(i + 1, j)))],
                    string_body(cs, j + 1, interp, seq![], line, col),
                )
            }
        } else {
            string_body(cs, i + 1, interp, buf.push(c), line, col)
        }
    }
}

/// A token put in front of the tokens of a successful lexing.
pub open spec fn token_then(
    t: TokView,
    r: Result<Seq<TokView>, (Seq<char>, int, int)>,
) -> Result<Seq<TokView>, (Seq<char>, int, int)> {
    match r {
        Ok(rest) => Ok(seq![t] + rest),
        Err(e) => Err(e),
    }
}

/// Tokens put in front of the tokens of a successful lexing.
pub open spec fn tokens_then(
    v: Seq<TokView>,
    r: Result<Seq<TokView>, (Seq<char>, int, int)>,
) -> Result<Seq<TokView>, (Seq<char>, int, int)> {
    match r {
        Ok(rest) => Ok(v + rest),
        Err(e) => Err(e),
    }
}

/// A token of kind `kind` with the text `cs[i..q]`, at `line` and `col`.
pub open spec fn plain_token(kind: TokenKind, cs: Seq<char>, i: int, q: int, line: int, col: int) -> TokView {
    TokView { kind, text: cs.subrange(i, q), parts: seq![], line, col }
}

/// The tokens of the text from `i` on, starting at `line` and `col` (both
/// from 1), ending with the end marker; or the first lexical diagnostic, at
/// its line and column. Newlines, spaces, tabs, carriage returns, line
/// comments `// ...` and block comments `-[ ... ]-` separate tokens.
pub open spec fn lex_from(cs: Seq<char>, i: int, line: int, col: int) -> Result<
    Seq<TokView>,
    (Seq<char>, int, int),
>
    decreases cs.len() - i,
{
    if i < 0 || i >= cs.len() {
        Ok(seq![TokView { kind: TokenKind::End, text: seq![], parts: seq![], line, col }])
    } else {
        let c = cs[i];
        if c == '\n' {
            lex_from(cs, i + 1, sat(line + 1), 1)
        } else if c == ' ' || c == '\t' || c == '\r' {
            lex_from(cs, i + 1, line, sat(col + 1))
        } else if c == '/' && i + 1 < cs.len() && cs[i + 1] == '/' {
            proof {
                lemma_line_end(cs, i);
            }
            lex_from(cs, line_end(cs, i), line, col)
        } else if c == '-' && i + 1 < cs.len() && cs[i + 1] == '[' {
            proof {
                lemma_block_end(cs, i + 2, line, sat(col + 2));
            }
            match block_end(cs, i + 2, line, sat(col + 2)) {
                Err(e) => Err(e),
                Ok((q, l, k)) => lex_from(cs, q, l, k),
            }
        } else if word_start(c) {
            let q = word_end(cs, i);
            proof {
                lemma_word_end(cs, i);
            }
            token_then(
                plain_token(TokenKind::Word, cs, i, q, line, col),
                lex_from(cs, q, line, sat(col + (q - i))),
            )
        } else if digit(c) {
            let q1 = digits_end(cs, i);
            proof {
                lemma_digits_end(cs, i);
            }
            if q1 + 1 < cs.len() && cs[q1] == '.' && digit(cs[q1 + 1]) {
                let q = digits_end(cs, q1 + 1);
                proof {
                    lemma_digits_end(cs, q1 + 1);
                }
                token_then(
                    plain_token(TokenKind::Float, cs, i, q, line, col),
                    lex_from(cs, q, line, sat(col + (q - i))),
                )
            } else {
                token_then(
                    plain_token(TokenKind::Integer, cs, i, q1, line, col),
                    lex_from(cs, q1, line, sat(col + (q1 - i))),
                )
            }
        } else if c == '"' || (c == '\\' && i + 2 < cs.len() && cs[i + 1] == 'V' && cs[i + 2] == '"') {
            let interp = c == '\\';
            let open = if interp {
                i + 2
            } else {
                i
            };
            proof {
                lemma_string_body(cs, open + 1, interp, seq![], line, col);
            }
            match string_body(cs, open + 1, interp, seq![], line, col) {
                Err(e) => Err(e),
                Ok((parts, end)) => token_then(
                    TokView {
                        kind: if interp {
                            TokenKind::Interpolated
                        } else {
                            TokenKind::Str
                        },
                        text: cs.subrange(i, end),
                        parts,
                        line,
                        col,
                    },
                    lex_from(cs, end, line, sat(col + (end - i))),
                ),
            }
        } else if i + 1 < cs.len() && two_char_symbol(c, cs[i + 1]) {
            token_then(
                plain_token(TokenKind::Symbol, cs, i, i + 2, line, col),
                lex_from(cs, i + 2, line, sat(col + 2)),
            )
        } else if one_char_symbol(c) {
            token_then(
                plain_token(TokenKind::Symbol, cs, i, i + 1, line, col),
                lex_from(cs, i + 1, line, sat(col + 1)),
            )
        } else {
            Err(("unexpected character '"@ + seq![c] + "'"@, line, col))
        }
    }
}

/// The tokens of a source text, or its first lexical diagnostic.
pub open spec fn lex(source: Seq<char>) -> Result<Seq<TokView>, (Seq<char>, int, int)> {
    lex_from(source, 0, 1, 1)
}

/// `word_end` lies between its start and the end of the text, past the start
/// when an identifier character is there.
pub proof fn lemma_word_end(cs: Seq<char>, i: int)
    requires
        0 <= i,
    ensures
        i <= word_end(cs, i),
        i < cs.len() ==> word_end(cs, i) <= cs.len(),
        i < cs.len() && word_char(cs[i]) ==> i < word_end(cs, i),
    decreases cs.len() - i,
{
    if 0 <= i < cs.len() && word_char(cs[i]) {
        lemma_word_end(cs, i + 1);
    }
}

/// `digits_end` lies between its start and the end of the text, past the
/// start when a digit is there.
pub proof fn lemma_digits_end(cs: Seq<char>, i: int)
    requires
        0 <= i,
    ensures
        i <= digits_end(cs, i),
        i < cs.len() ==> digits_end(cs, i) <= cs.len(),
        i < cs.len() && digit(cs[i]) ==> i < digits_end(cs, i),
    decreases cs.len() - i,
{
    if 0 <= i < cs.len() && digit(cs[i]) {
        lemma_digits_end(cs, i + 1);
    }
}

/// `line_end` lies between its start and the end of the text, past the start
/// when no newline is there.
pub proof fn lemma_line_end(cs: Seq<char>, i: int)
    requires
        0 <= i,
    ensures
        i <= line_end(cs, i),
        i < cs.len() ==> line_end(cs, i) <= cs.len(),
        i < cs.len() && cs[i] != '\n' ==> i < line_end(cs, i),
    decreases cs.len() - i,
{
    if 0 <= i < cs.len() && cs[i] != '\n' {
        lemma_line_end(cs, i + 1);
    }
}

/// `interp_end` lies between its start and the end of the text.
pub proof fn lemma_interp_end(cs: Seq<char>, j: int)
    requires
        0 <= j,
    ensures
        j <= interp_end(cs, j),
        j <= cs.len() ==> interp_end(cs, j) <= cs.len(),
    decreases cs.len() - j,
{
    if 0 <= j < cs.len() && cs[j] != '}' && cs[j] != '"' && cs[j] != '\n' {
        lemma_interp_end(cs, j + 1);
    }
}

/// A closed block comment ends at least two characters after its start,
/// within the text.
pub proof fn lemma_block_end(cs: Seq<char>, i: int, line: int, col: int)
    requires
        0 <= i,
    ensures
        block_end(cs, i, line, col) matches Ok((q, _, _)) ==> i + 2 <= q <= cs.len(),
    decreases cs.len() - i,
{
    if 0 <= i < cs.len() && !(cs[i] == ']' && i + 1 < cs.len() && cs[i + 1] == '-') {
        if cs[i] == '\n' {
            lemma_block_end(cs, i + 1, sat(line + 1), 1);
        } else {
            lemma_block_end(cs, i + 1, line, sat(col + 1));
        }
    }
}

/// A string literal that is read ends after its start, within the text.
pub proof fn lemma_string_body(cs: Seq<char>, i: int, interp: bool, buf: Seq<char>, line: int, col: int)
    requires
        0 <= i,
    ensures
        string_body(cs, i, interp, buf, line, col) matches Ok((_, q)) ==> i < q <= cs.len(),
    decreases cs.len() - i,
{
    if 0 <= i < cs.len() {
        let c = cs[i];
        if c == '\\' && i + 1 < cs.len() {
            lemma_string_body(cs, i + 2, interp, buf.push(escape_char(cs[i + 1])), line, col);
        } else if c != '"' && c != '\\' && c != '\n' {
            if interp && c == '{' {
                let j = interp_end(cs, i + 1);
                lemma_interp_end(cs, i + 1);
                if j < cs.len() && cs[j] == '}' {
                    lemma_string_body(cs, j + 1, interp, seq![], line, col);
                }
            } else {
                lemma_string_body(cs, i + 1, interp, buf.push(c), line, col);
            }
        }
    }
}

fn is_word_start(c: char) -> (b: bool)
    ensures
        b == word_start(c),
{
    ('a' <= c && c <= 'z') || ('A' <= c && c <= 'Z') || c == '_'
}

fn is_word_char(c: char) -> (b: bool)
    ensures
        b == word_char(c),
{
    is_word_start(c) || ('0' <= c && c <= '9')
}

fn is_digit(c: char) -> (b: bool)
    ensures
        b == digit(c),
{
    '0' <= c && c <= '9'
}

fn lex_error(message: &str, line: usize, col: usize) -> (e: ForgeError)
    ensures
        e.message@ == message@,
        e.line == line,
        e.col == col,
{
    ForgeError::new(owned(message), line, col)
}

fn string_of(cs: &Vec<char>, start: usize, end: usize) -> (s: String)
    requires
        start <= end <= cs@.len(),
    ensures
        s@ == cs@.subrange(start as int, end as int),
{
    let mut s = String::new();
    let mut i = start;
    while i < end
        invariant
            start <= i <= end <= cs@.len(),
            s@ == cs@.subrange(start as int, i as int),
        decreases end - i,
    {
        push_char(&mut s, cs[i]);
        i += 1;
        assert(s@ =~= cs@.subrange(start as int, i as int));
    }
    s
}

/// The character an escape sequence `\c` stands for.
fn escaped(c: char) -> (r: char)
    ensures
        r == escape_char(c),
{
    if c == 'n' {
        '\n'
    } else if c == 't' {
        '\t'
    } else if c == 'r' {
        '\r'
    } else if c == '0' {
        '\0'
    } else {
        c
    }
}

proof fn lemma_parts_push(ps: Seq<StringPart>, p: StringPart)
    ensures
        parts_view(ps.push(p)) == parts_view(ps).push(part_view(p)),
{
    assert(parts_view(ps.push(p)) =~= parts_view(ps).push(part_view(p)));
}

/// Reads the body of a string literal whose opening quote is at `open`.
/// Returns the parts and the position after the closing quote.
fn lex_string(cs: &Vec<char>, open: usize, interpolated: bool, line: usize, col: usize) -> (r: Result<
    (Vec<StringPart>, usize),
    ForgeError,
>)
    requires
        open < cs.len(),
    ensures
        r matches Ok((_, end)) ==> open < end <= cs@.len(),
        match r {
            Ok((ps, end)) => string_body(cs@, open + 1, interpolated, seq![], line as int, col as int)
                == Ok::<(Seq<PartView>, int), (Seq<char>, int, int)>((parts_view(ps@), end as int)),
            Err(e) => string_body(cs@, open + 1, interpolated, seq![], line as int, col as int) == Err::<
                (Seq<PartView>, int),
                (Seq<char>, int, int),
            >(error_view(e)),
        },
{
    let ghost whole = string_body(cs@, open + 1, interpolated, seq![], line as int, col as int);
    let mut parts: Vec<StringPart> = Vec::new();
    let mut buf = String::new();
    let mut i = open + 1;
    proof {
        assert(parts_view(parts@) =~= seq![]);
        assert(parts_prefixed(seq![], whole) == whole) by {
            match whole {
                Ok((ps, q)) => {
                    assert(seq![] + ps =~= ps);
                },
                Err(_) => {},
            }
        }
    }
    while i < cs.len() && cs[i] != '"'
        invariant
            open < i <= cs@.len(),
            whole == string_body(cs@, open + 1, interpolated, seq![], line as int, col as int),
            whole == parts_prefixed(
                parts_view(parts@),
                string_body(cs@, i as int, interpolated, buf@, line as int, col as int),
            ),
        decreases cs@.len() - i,
    {
        let c = cs[i];
        if c == '\\' {
            if i + 1 >= cs.len() {
                return Err(lex_error("unterminated string literal", line, col));
            }
            push_char(&mut buf, escaped(cs[i + 1]));
            i += 2;
        } else if c == '\n' {
            return Err(lex_error("unterminated string literal", line, col));
        } else if interpolated && c == '{' {
            let ghost before = parts_view(parts@);
            let ghost b0 = buf@;
            if !buf.as_str().is_empty() {
                let ghost pv = parts@;
                parts.push(StringPart::Literal(buf));
                buf = String::new();
                proof {
                    lemma_parts_push(pv, parts@.last());
                    assert(pv.push(parts@.last()) == parts@);
                }
            }
            proof {
                assert(parts_view(parts@) =~= before + flushed(b0));
            }
            let mut j = i + 1;
            while j < cs.len() && cs[j] != '}' && cs[j] != '"' && cs[j] != '\n'
                invariant
                    i < j <= cs@.len(),
                    interp_end(cs@, i + 1) == interp_end(cs@, j as int),
                decreases cs@.len() - j,
            {
                j += 1;
            }
            if j >= cs.len() || cs[j] != '}' {
                return Err(lex_error("unterminated interpolation", line, col));
            }
            let mut path = String::new();
            let mut k = i + 1;
            while k < j
                invariant
                    i < k <= j,
                    j < cs@.len(),
                    path@ == unblank(cs@.subrange(i + 1, k as int)),
                decreases j - k,
            {
                proof {
                    assert(cs@.subrange(i + 1, k + 1).drop_last() =~= cs@.subrange(i + 1, k as int));
                    assert(cs@.subrange(i + 1, k + 1).last() == cs@[k as int]);
                }
                if cs[k] != ' ' && cs[k] != '\t' {
                    push_char(&mut path, cs[k]);
                }
                k += 1;
            }
            let ghost pv = parts@;
            let ghost u = path@;
            parts.push(StringPart::Interp(path));
            proof {
                lemma_parts_push(pv, parts@.last());
                assert(pv.push(parts@.last()) == parts@);
                assert(interp_end(cs@, j as int) == j);
                assert(u == unblank(cs@.subrange(i + 1, j as int)));
                assert(buf@ =~= seq![]);
                assert(string_body(cs@, i as int, interpolated, b0, line as int, col as int) == parts_prefixed(
                    flushed(b0) + seq![PartView::Interp(u)],
                    string_body(cs@, j + 1, interpolated, seq![], line as int, col as int),
                ));
                let mid = before + (flushed(b0) + seq![PartView::Interp(u)]);
                assert(parts_view(parts@) =~= mid);
                let rest = string_body(cs@, j + 1, interpolated, seq![], line as int, col as int);
                assert(parts_prefixed(before, parts_prefixed(flushed(b0) + seq![PartView::Interp(u)], rest))
                    == parts_prefixed(mid, rest)) by {
                    match rest {
                        Ok((ps, q)) => {
                            assert(before + (flushed(b0) + seq![PartView::Interp(u)] + ps) =~= mid + ps);
                        },
                        Err(_) => {},
                    }
                }
            }
            i = j + 1;
        } else {
            push_char(&mut buf, c);
            i += 1;
        }
    }
    if i >= cs.len() {
        return Err(lex_error("unterminated string literal", line, col));
    }
    let ghost before = parts_view(parts@);
    let ghost b0 = buf@;
    if !buf.as_str().is_empty() {
        let ghost pv = parts@;
        parts.push(StringPart::Literal(buf));
        proof {
            lemma_parts_push(pv, parts@.last());
            assert(pv.push(parts@.last()) == parts@);
        }
    }
    proof {
        assert(parts_view(parts@) =~= before + flushed(b0));
    }
    Ok((parts, i + 1))
}

fn is_two_char_symbol(a: char, b: char) -> (r: bool)
    ensures
        r == two_char_symbol(a, b),
{
    (a == '=' && b == '=') || (a == '!' && b == '=') || (a == '<' && b == '=') || (a == '>' && b
        == '=') || (a == '*' && b == '*') || (a == '+' && b == '+') || (a == '-' && b == '-')
}

fn is_one_char_symbol(c: char) -> (r: bool)
    ensures
        r == one_char_symbol(c),
{
    c == '(' || c == ')' || c == '{' || c == '}' || c == '[' || c == ']' || c == ';' || c == ','
        || c == '.' || c == ':' || c == '=' || c == '<' || c == '>' || c == '+' || c == '-' || c
        == '*' || c == '/' || c == '%'
}

proof fn lemma_tokens_push(ts: Seq<Token>, t: Token)
    ensures
        tokens_view(ts.push(t)) == tokens_view(ts).push(token_view(t)),
{
    assert(tokens_view(ts.push(t)) =~= tokens_view(ts).push(token_view(t)));
}

proof fn lemma_tokens_then(v: Seq<TokView>, t: TokView, r: Result<Seq<TokView>, (Seq<char>, int, int)>)
    ensures
        tokens_then(v, token_then(t, r)) == tokens_then(v.push(t), r),
{
    match r {
        Ok(rest) => {
            assert(v + (seq![t] + rest) =~= v.push(t) + rest);
        },
        Err(_) => {},
    }
}

/// Splits source text into tokens, ending with an end marker: exactly the
/// tokens `lex` gives, or its diagnostic.
#[verifier::spinoff_prover]
#[verifier::rlimit(40)]
pub fn tokenize(source: &str) -> (r: Result<Vec<Token>, ForgeError>)
    ensures
        r matches Ok(toks) ==> tokens_ok(toks@),
        match r {
            Ok(toks) => lex(source@) == Ok::<Seq<TokView>, (Seq<char>, int, int)>(tokens_view(toks@)),
            Err(e) => lex(source@) == Err::<Seq<TokView>, (Seq<char>, int, int)>(error_view(e)),
        },
{
    let cs = crate::text::chars_of(source);
    let mut toks: Vec<Token> = Vec::new();
    let mut i: usize = 0;
    let mut line: usize = 1;
    let mut col: usize = 1;
    let ghost whole = lex(source@);
    proof {
        assert(tokens_view(toks@) =~= seq![]);
        match lex_from(cs@, 0, 1, 1) {
            Ok(rest) => {
                assert(seq![] + rest =~= rest);
            },
            Err(_) => {},
        }
    }
    while i < cs.len()
        invariant
            i <= cs@.len(),
            cs@ == source@,
            whole == lex(source@),
            whole == tokens_then(tokens_view(toks@), lex_from(cs@, i as int, line as int, col as int)),
            forall|k: int| 0 <= k < toks@.len() ==> (#[trigger] toks@[k]).kind != TokenKind::End,
            forall|k: int|
                0 <= k < toks@.len() && (#[trigger] toks@[k]).kind == TokenKind::Word
                    ==> toks@[k].text@.len() > 0 && word_start(toks@[k].text@[0]),
        decreases cs@.len() - i,
    {
        let c = cs[i];
        let start = i;
        let start_col = col;
        let ghost v = tokens_view(toks@);
        let ghost l0 = line as int;
        let ghost c0 = col as int;
        if c == '\n' {
            i += 1;
            line = line.saturating_add(1);
            col = 1;
        } else if c == ' ' || c == '\t' || c == '\r' {
            i += 1;
            col = col.saturating_add(1);
        } else if c == '/' && cs.len() - i > 1 && cs[i + 1] == '/' {
            while i < cs.len() && cs[i] != '\n'
                invariant
                    start <= i <= cs@.len(),
                    line_end(cs@, start as int) == line_end(cs@, i as int),
                decreases cs@.len() - i,
            {
                i += 1;
            }
        } else if c == '-' && cs.len() - i > 1 && cs[i + 1] == '[' {
            i += 2;
            col = col.saturating_add(2);
            while i < cs.len() && !(cs[i] == ']' && cs.len() - i > 1 && cs[i + 1] == '-')
                invariant
                    start < i <= cs@.len(),
                    block_end(cs@, start + 2, l0, sat(c0 + 2)) == block_end(
                        cs@,
                        i as int,
                        line as int,
                        col as int,
                    ),
                decreases cs@.len() - i,
            {
                if cs[i] == '\n' {
                    line = line.saturating_add(1);
                    col = 1;
                } else {
                    col = col.saturating_add(1);
                }
                i += 1;
            }
            if i >= cs.len() {
                return Err(lex_error("unterminated comment", line, col));
            }
            i += 2;
            col = col.saturating_add(2);
        } else if is_word_start(c) {
            while i < cs.len() && is_word_char(cs[i])
                invariant
                    start <= i <= cs@.len(),
                    word_end(cs@, start as int) == word_end(cs@, i as int),
                decreases cs@.len() - i,
            {
                i += 1;
            }
            let text = string_of(&cs, start, i);
            let tok = Token { kind: TokenKind::Word, text, parts: Vec::new(), line, col: start_col };
            proof {
                lemma_word_end(cs@, start as int);
                assert(parts_view(tok.parts@) =~= seq![]);
                assert(token_view(tok) == plain_token(TokenKind::Word, cs@, start as int, i as int, l0, c0));
                lemma_tokens_then(v, token_view(tok), lex_from(cs@, i as int, l0, sat(c0 + (i - start))));
                lemma_tokens_push(toks@, tok);
            }
            toks.push(tok);
            col = col.saturating_add(i - start);
        } else if is_digit(c) {
            while i < cs.len() && is_digit(cs[i])
                invariant
                    start <= i <= cs@.len(),
                    digits_end(cs@, start as int) == digits_end(cs@, i as int),
                decreases cs@.len() - i,
            {
                i += 1;
            }
            let ghost q1 = i as int;
            let mut kind = TokenKind::Integer;
            if cs.len() - i > 1 && cs[i] == '.' && is_digit(cs[i + 1]) {
                kind = TokenKind::Float;
                i += 1;
                while i < cs.len() && is_digit(cs[i])
                    invariant
                        start < i <= cs@.len(),
                        digits_end(cs@, q1 + 1) == digits_end(cs@, i as int),
                    decreases cs@.len() - i,
                {
                    i += 1;
                }
            }
            let text = string_of(&cs, start, i);
            let tok = Token { kind, text, parts: Vec::new(), line, col: start_col };
            proof {
                lemma_digits_end(cs@, start as int);
                assert(parts_view(tok.parts@) =~= seq![]);
                assert(token_view(tok) == plain_token(kind, cs@, start as int, i as int, l0, c0));
                lemma_tokens_then(v, token_view(tok), lex_from(cs@, i as int, l0, sat(c0 + (i - start))));
                lemma_tokens_push(toks@, tok);
            }
            toks.push(tok);
            col = col.saturating_add(i - start);
        } else if c == '"' || (c == '\\' && cs.len() - i > 2 && cs[i + 1] == 'V' && cs[i + 2] == '"') {
            let interpolated = c == '\\';
            let open = if interpolated {
                i + 2
            } else {
                i
            };
            match lex_string(&cs, open, interpolated, line, start_col) {
                Err(e) => {
                    return Err(e);
                },
                Ok((parts, end)) => {
                    let text = string_of(&cs, start, end);
                    let kind = if interpolated {
                        TokenKind::Interpolated
                    } else {
                        TokenKind::Str
                    };
                    let tok = Token { kind, text, parts, line, col: start_col };
                    proof {
                        lemma_tokens_then(
                            v,
                            token_view(tok),
                            lex_from(cs@, end as int, l0, sat(c0 + (end - start))),
                        );
                        lemma_tokens_push(toks@, tok);
                    }
                    toks.push(tok);
                    col = col.saturating_add(end - start);
                    i = end;
                },
            }
        } else if cs.len() - i > 1 && is_two_char_symbol(c, cs[i + 1]) {
            i += 2;
            let text = string_of(&cs, start, i);
            let tok = Token { kind: TokenKind::Symbol, text, parts: Vec::new(), line, col: start_col };
            proof {
                assert(parts_view(tok.parts@) =~= seq![]);
                assert(token_view(tok) == plain_token(TokenKind::Symbol, cs@, start as int, i as int, l0, c0));
                lemma_tokens_then(v, token_view(tok), lex_from(cs@, i as int, l0, sat(c0 + 2)));
                lemma_tokens_push(toks@, tok);
            }
            toks.push(tok);
            col = col.saturating_add(2);
        } else if is_one_char_symbol(c) {
            i += 1;
            let text = string_of(&cs, start, i);
            let tok = Token { kind: TokenKind::Symbol, text, parts: Vec::new(), line, col: start_col };
            proof {
                assert(parts_view(tok.parts@) =~= seq![]);
                assert(token_view(tok) == plain_token(TokenKind::Symbol, cs@, start as int, i as int, l0, c0));
                lemma_tokens_then(v, token_view(tok), lex_from(cs@, i as int, l0, sat(c0 + 1)));
                lemma_tokens_push(toks@, tok);
            }
            toks.push(tok);
            col = col.saturating_add(1);
        } else {
            let mut msg = owned("unexpected character '");
            push_char(&mut msg, c);
            append(&mut msg, "'");
            proof {
                assert(msg@ =~= "unexpected character '"@ + seq![c] + "'"@);
            }
            return Err(ForgeError::new(msg, line, col));
        }
    }
    let end = Token { kind: TokenKind::End, text: String::new(), parts: Vec::new(), line, col };
    proof {
        assert(parts_view(end.parts@) =~= seq![]);
        assert(end.text@ =~= seq![]);
        lemma_tokens_push(toks@, end);
        assert(tokens_view(toks@) + seq![token_view(end)] =~= tokens_view(toks@).push(token_view(end)));
    }
    toks.push(end);
    Ok(toks)
}

/// What every parsing function may assume of its tokens and position.
pub open spec fn at_token(toks: &Vec<Token>, pos: int) -> bool {
    tokens_ok(toks@) && 0 <= pos < toks.len()
}

/// A successful parse consumed at least one token and stopped at a token.
pub open spec fn advanced<T>(r: Result<(T, usize), ForgeError>, toks: Seq<Token>, pos: int) -> bool {
    r matches Ok((_, p)) ==> pos < p < toks.len()
}

/// Whether the token is the symbol `s`.
pub open spec fn is_sym(t: Token, s: Seq<char>) -> bool {
    t.kind == TokenKind::Symbol && t.text@ == s
}

/// Whether the token is the word `s`.
pub open spec fn is_word(t: Token, s: Seq<char>) -> bool {
    t.kind == TokenKind::Word && t.text@ == s
}

/// The diagnostic for a token where `what` was expected.
pub open spec fn expected_message(t: Token, what: Seq<char>) -> Seq<char> {
    "expected "@ + what + if t.kind == TokenKind::End {
        ", found end of input"@
    } else {
        ", found '"@ + t.text@ + "'"@
    }
}

/// The number subtype a word names, if any.
pub open spec fn subtype_named(t: Token) -> Option<Subtype> {
    if is_word(t, "Int"@) {
        Some(Subtype::Int)
    } else if is_word(t, "Float"@) {
        Some(Subtype::Float)
    } else if is_word(t, "Generic"@) {
        Some(Subtype::Generic)
    } else if is_word(t, "Weld"@) {
        Some(Subtype::Weld)
    } else {
        None
    }
}

/// The modifier a word names, if any.
pub open spec fn modifier_named(t: Token) -> Option<Modifier> {
    if is_word(t, "Open"@) {
        Some(Modifier::Open)
    } else if is_word(t, "Closed"@) {
        Some(Modifier::Closed)
    } else if is_word(t, "Showcase"@) {
        Some(Modifier::Showcase)
    } else {
        None
    }
}

/// Whether a token starts a declared type.
pub open spec fn type_start(t: Token) -> bool {
    is_word(t, "Number"@) || is_word(t, "Int"@) || is_word(t, "Float"@) || is_word(t, "Generic"@)
        || is_word(t, "Weld"@) || is_word(t, "Bool"@) || is_word(t, "Ore"@) || is_word(t, "Materials"@)
}

/// The comparison a symbol names, if any.
pub open spec fn comparison_named(t: Token) -> Option<BinOp> {
    if is_sym(t, "=="@) {
        Some(BinOp::Eq)
    } else if is_sym(t, "!="@) {
        Some(BinOp::Ne)
    } else if is_sym(t, "<="@) {
        Some(BinOp::Le)
    } else if is_sym(t, ">="@) {
        Some(BinOp::Ge)
    } else if is_sym(t, "<"@) {
        Some(BinOp::Lt)
    } else if is_sym(t, ">"@) {
        Some(BinOp::Gt)
    } else {
        None
    }
}

/// The symbol that spells a comparison operator.
pub open spec fn comparison_spelling(op: BinOp) -> Seq<char> {
    match op {
        BinOp::Eq => "=="@,
        BinOp::Ne => "!="@,
        BinOp::Lt => "<"@,
        BinOp::Gt => ">"@,
        BinOp::Le => "<="@,
        BinOp::Ge => ">="@,
        _ => Seq::empty(),
    }
}

/// A comparison symbol is read as the operator it spells, and is none of the
/// arithmetic operators.
pub proof fn lemma_comparison_spelled(t: Token)
    ensures
        comparison_named(t) matches Some(op) ==> t.kind == TokenKind::Symbol && t.text@ == comparison_spelling(op),
        comparison_named(t) is Some ==> !arith_op(t),
{
    reveal_strlit("==");
    reveal_strlit("!=");
    reveal_strlit("<=");
    reveal_strlit(">=");
    reveal_strlit("<");
    reveal_strlit(">");
    reveal_strlit("+");
    reveal_strlit("-");
    reveal_strlit("*");
    reveal_strlit("/");
    reveal_strlit("%");
    assert("=="@ =~= seq!['=', '=']);
    assert("!="@ =~= seq!['!', '=']);
    assert("<="@ =~= seq!['<', '=']);
    assert(">="@ =~= seq!['>', '=']);
    assert("<"@ =~= seq!['<']);
    assert(">"@ =~= seq!['>']);
    assert("+"@ =~= seq!['+']);
    assert("-"@ =~= seq!['-']);
    assert("*"@ =~= seq!['*']);
    assert("/"@ =~= seq!['/']);
    assert("%"@ =~= seq!['%']);
    if comparison_named(t) is Some && t.text@.len() == 1 {
        assert(t.text@[0] == '<' || t.text@[0] == '>');
    }
}

fn sym(toks: &Vec<Token>, pos: usize, s: &str) -> (b: bool)
    requires
        at_token(toks, pos as int),
    ensures
        b == is_sym(toks@[pos as int], s@),
        b ==> toks@[pos as int].kind == TokenKind::Symbol,
{
    toks[pos].kind == TokenKind::Symbol && str_eq(toks[pos].text.as_str(), s)
}

fn word(toks: &Vec<Token>, pos: usize, s: &str) -> (b: bool)
    requires
        at_token(toks, pos as int),
    ensures
        b == is_word(toks@[pos as int], s@),
        b ==> toks@[pos as int].kind == TokenKind::Word,
{
    toks[pos].kind == TokenKind::Word && str_eq(toks[pos].text.as_str(), s)
}

proof fn lemma_next(toks: &Vec<Token>, pos: int)
    requires
        at_token(toks, pos),
        toks@[pos].kind != TokenKind::End,
    ensures
        pos + 1 < toks.len(),
        at_token(toks, pos + 1),
{
}

/// A syntax error at the token at `pos`.
fn error_at(toks: &Vec<Token>, pos: usize, expected: &str) -> (e: ForgeError)
    requires
        at_token(toks, pos as int),
    ensures
        e.message@ == expected_message(toks@[pos as int], expected@),
        e.line == toks@[pos as int].line,
        e.col == toks@[pos as int].col,
{
    let t = &toks[pos];
    let mut msg = concat("expected ", expected);
    if t.kind == TokenKind::End {
        append(&mut msg, ", found end of input");
    } else {
        append(&mut msg, ", found '");
        append(&mut msg, t.text.as_str());
        append(&mut msg, "'");
    }
    ForgeError::new(msg, t.line, t.col)
}

/// Consumes the symbol `s`.
fn expect_sym(toks: &Vec<Token>, pos: usize, s: &str) -> (r: Result<usize, ForgeError>)
    requires
        at_token(toks, pos as int),
    ensures
        r is Ok <==> is_sym(toks@[pos as int], s@),
        r matches Ok(p) ==> p == pos + 1 && p < toks@.len(),
        r matches Err(e) ==> e.message@ == expected_message(toks@[pos as int], "'"@ + s@ + "'"@)
            && e.line == toks@[pos as int].line && e.col == toks@[pos as int].col,
{
    if sym(toks, pos, s) {
        Ok(pos + 1)
    } else {
        let what = concat(concat("'", s).as_str(), "'");
        Err(error_at(toks, pos, what.as_str()))
    }
}

/// Consumes an identifier.
fn expect_ident(toks: &Vec<Token>, pos: usize) -> (r: Result<(String, usize), ForgeError>)
    requires
        at_token(toks, pos as int),
    ensures
        r is Ok <==> toks@[pos as int].kind == TokenKind::Word,
        r matches Ok((name, p)) ==> p == pos + 1 && p < toks@.len() && name@ == toks@[pos as int].text@,
        r matches Err(e) ==> e.message@ == expected_message(toks@[pos as int], "an identifier"@)
            && e.line == toks@[pos as int].line && e.col == toks@[pos as int].col,
{
    if toks[pos].kind == TokenKind::Word {
        Ok((copy_string(&toks[pos].text), pos + 1))
    } else {
        Err(error_at(toks, pos, "an identifier"))
    }
}

fn subtype_of(toks: &Vec<Token>, pos: usize) -> (r: Option<Subtype>)
    requires
        at_token(toks, pos as int),
    ensures
        r == subtype_named(toks@[pos as int]),
        r is Some ==> toks@[pos as int].kind == TokenKind::Word,
{
    if word(toks, pos, "Int") {
        Some(Subtype::Int)
    } else if word(toks, pos, "Float") {
        Some(Subtype::Float)
    } else if word(toks, pos, "Generic") {
        Some(Subtype::Generic)
    } else if word(toks, pos, "Weld") {
        Some(Subtype::Weld)
    } else {
        None
    }
}

fn modifier_of(toks: &Vec<Token>, pos: usize) -> (r: Option<Modifier>)
    requires
        at_token(toks, pos as int),
    ensures
        r == modifier_named(toks@[pos as int]),
        r is Some ==> toks@[pos as int].kind == TokenKind::Word,
{
    if word(toks, pos, "Open") {
        Some(Modifier::Open)
    } else if word(toks, pos, "Closed") {
        Some(Modifier::Closed)
    } else if word(toks, pos, "Showcase") {
        Some(Modifier::Showcase)
    } else {
        None
    }
}

/// Whether a declared type starts at `pos`.
fn starts_type(toks: &Vec<Token>, pos: usize) -> (b: bool)
    requires
        at_token(toks, pos as int),
    ensures
        b == type_start(toks@[pos as int]),
{
    word(toks, pos, "Number") || word(toks, pos, "Int") || word(toks, pos, "Float") || word(
        toks,
        pos,
        "Generic",
    ) || word(toks, pos, "Weld") || word(toks, pos, "Bool") || word(toks, pos, "Ore") || word(
        toks,
        pos,
        "Materials",
    )
}

/// Where the fields of an `Ore(...)` type from `q` on end (after the closing
/// parenthesis): each a subtype and a name, separated by commas; none if they
/// do not form such a list.
pub open spec fn fields_end(t: Seq<Token>, q: int) -> Option<int>
    decreases t.len() - q,
{
    if !(0 <= q && q + 2 < t.len()) {
        None
    } else if subtype_named(t[q]) is Some && t[q + 1].kind == TokenKind::Word {
        if is_sym(t[q + 2], ","@) {
            fields_end(t, q + 3)
        } else if is_sym(t[q + 2], ")"@) {
            Some(q + 3)
        } else {
            None
        }
    } else {
        None
    }
}

/// Where the declared type from `pos` on ends; none if no type starts
/// there: `Number` and a subtype, `Weld`, `Bool`, `Ore[size]` or
/// `Ore[Empty]` with a size that fits an `i64`, `Ore(fields)`,
/// `Materials<subtype>` optionally followed by `New`, or a bare subtype.
pub open spec fn type_end(t: Seq<Token>, pos: int) -> Option<int> {
    let tk = t[pos];
    if is_word(tk, "Number"@) {
        if subtype_named(t[pos + 1]) is Some {
            Some(pos + 2)
        } else {
            None
        }
    } else if is_word(tk, "Weld"@) || is_word(tk, "Bool"@) {
        Some(pos + 1)
    } else if is_word(tk, "Ore"@) {
        if is_sym(t[pos + 1], "["@) {
            let q = pos + 2;
            if (is_word(t[q], "Empty"@) || (t[q].kind == TokenKind::Integer && integer_value(t[q].text@) is Some))
                && is_sym(t[q + 1], "]"@) {
                Some(q + 2)
            } else {
                None
            }
        } else if is_sym(t[pos + 1], "("@) {
            fields_end(t, pos + 2)
        } else {
            None
        }
    } else if is_word(tk, "Materials"@) {
        if is_sym(t[pos + 1], "<"@) && subtype_named(t[pos + 2]) is Some && is_sym(t[pos + 3], ">"@) {
            if is_word(t[pos + 4], "New"@) {
                Some(pos + 5)
            } else {
                Some(pos + 4)
            }
        } else {
            None
        }
    } else if subtype_named(tk) is Some {
        Some(pos + 1)
    } else {
        None
    }
}

/// Where a comma-separated list of parameters (each a type and a name) from
/// `q` on ends, after the closing parenthesis; none if there is no such list.
pub open spec fn params_list_end(t: Seq<Token>, q: int) -> Option<int>
    decreases t.len() - q,
{
    if !(0 <= q < t.len()) {
        None
    } else {
        match type_end(t, q) {
            None => None,
            Some(q1) => if q < q1 && q1 + 1 < t.len() && t[q1].kind == TokenKind::Word {
                if is_sym(t[q1 + 1], ","@) {
                    params_list_end(t, q1 + 2)
                } else if is_sym(t[q1 + 1], ")"@) {
                    Some(q1 + 2)
                } else {
                    None
                }
            } else {
                None
            },
        }
    }
}

/// Where a parameter list `( ... )` starting at `pos` ends; none if there is
/// none there.
pub open spec fn params_end(t: Seq<Token>, pos: int) -> Option<int> {
    if !is_sym(t[pos], "("@) {
        None
    } else if is_sym(t[pos + 1], ")"@) {
        Some(pos + 2)
    } else {
        params_list_end(t, pos + 1)
    }
}

/// Where the identifiers of a dotted path after its first one, from `p` on,
/// end; none if a `.` is not followed by an identifier.
pub open spec fn path_end(t: Seq<Token>, p: int) -> Option<int>
    decreases t.len() - p,
{
    if 0 <= p && p + 1 < t.len() && is_sym(t[p], "."@) {
        if t[p + 1].kind == TokenKind::Word {
            path_end(t, p + 2)
        } else {
            None
        }
    } else {
        Some(p)
    }
}

/// The identifiers of a dotted path after its first one, from `p` on.
pub open spec fn path_words(t: Seq<Token>, p: int) -> Seq<Seq<char>>
    decreases t.len() - p,
{
    if 0 <= p && p + 1 < t.len() && is_sym(t[p], "."@) && t[p + 1].kind == TokenKind::Word {
        seq![t[p + 1].text@] + path_words(t, p + 2)
    } else {
        seq![]
    }
}

/// Where the members of a `Data` declaration from `p` on end, after the
/// closing brace: each an optional modifier, a type, a name and `;`; none if
/// they do not form such a list.
pub open spec fn members_end(t: Seq<Token>, p: int) -> Option<int>
    decreases t.len() - p,
{
    if !(0 <= p < t.len()) {
        None
    } else if is_sym(t[p], "}"@) {
        Some(p + 1)
    } else {
        let q = if modifier_named(t[p]) is Some {
            p + 1
        } else {
            p
        };
        match type_end(t, q) {
            Some(q2) => if p <= q < q2 && q2 + 1 < t.len() && t[q2].kind == TokenKind::Word && is_sym(
                t[q2 + 1],
                ";"@,
            ) {
                members_end(t, q2 + 2)
            } else {
                None
            },
            None => None,
        }
    }
}

/// Where a `Data Name { members }` declaration at `pos` ends; none if there
/// is none there.
pub open spec fn data_end(t: Seq<Token>, pos: int) -> Option<int> {
    if is_word(t[pos], "Data"@) && t[pos + 1].kind == TokenKind::Word && is_sym(t[pos + 2], "{"@) {
        members_end(t, pos + 3)
    } else {
        None
    }
}

/// Whether an object declaration with no initializers, `Type Name { }`,
/// starts at `pos`.
pub open spec fn empty_object(t: Seq<Token>, pos: int) -> bool {
    t[pos].kind == TokenKind::Word && t[pos + 1].kind == TokenKind::Word && is_sym(t[pos + 2], "{"@) && is_sym(
        t[pos + 3],
        "}"@,
    )
}

/// Parses a declared type.
fn parse_type_decl(toks: &Vec<Token>, pos: usize) -> (r: Result<(TypeDecl, usize), ForgeError>)
    requires
        at_token(toks, pos as int),
    ensures
        advanced(r, toks@, pos as int),
        match r {
            Ok((_, p)) => type_end(toks@, pos as int) == Some(p as int),
            Err(_) => type_end(toks@, pos as int) is None,
        },
{
    if word(toks, pos, "Number") {
        proof {
            lemma_next(toks, pos as int);
        }
        match subtype_of(toks, pos + 1) {
            Some(st) => {
                proof {
                    lemma_next(toks, pos + 1);
                }
                Ok((TypeDecl::Number(st), pos + 2))
            },
            None => Err(error_at(toks, pos + 1, "a number subtype")),
        }
    } else if word(toks, pos, "Weld") {
        proof {
            lemma_next(toks, pos as int);
        }
        Ok((TypeDecl::Weld, pos + 1))
    } else if word(toks, pos, "Bool") {
        proof {
            lemma_next(toks, pos as int);
        }
        Ok((TypeDecl::Bool, pos + 1))
    } else if word(toks, pos, "Ore") {
        proof {
            lemma_next(toks, pos as int);
        }
        let p = pos + 1;
        if sym(toks, p, "[") {
            proof {
                lemma_next(toks, p as int);
            }
            let q = p + 1;
            let size = if word(toks, q, "Empty") {
                None
            } else if toks[q].kind == TokenKind::Integer {
                match parse_integer(toks[q].text.as_str()) {
                    Some(v) => Some(v),
                    None => {
                        return Err(error_at(toks, q, "an array size"));
                    },
                }
            } else {
                return Err(error_at(toks, q, "an array size or 'Empty'"));
            };
            proof {
                lemma_next(toks, q as int);
            }
            let e = expect_sym(toks, q + 1, "]")?;
            Ok((TypeDecl::Ore(size), e))
        } else if sym(toks, p, "(") {
            proof {
                lemma_next(toks, p as int);
            }
            let mut fields: Vec<(Subtype, String)> = Vec::new();
            let mut q = p + 1;
            loop
                invariant
                    at_token(toks, q as int),
                    pos < q,
                    p == pos + 1,
                    is_word(toks@[pos as int], "Ore"@),
                    is_sym(toks@[p as int], "("@),
                    !is_sym(toks@[p as int], "["@),
                    fields_end(toks@, pos + 2) == fields_end(toks@, q as int),
                    type_end(toks@, pos as int) == fields_end(toks@, pos + 2),
                decreases toks@.len() - q,
            {
                let st = match subtype_of(toks, q) {
                    Some(st) => st,
                    None => {
                        return Err(error_at(toks, q, "a field subtype"));
                    },
                };
                proof {
                    lemma_next(toks, q as int);
                }
                let (name, q2) = expect_ident(toks, q + 1)?;
                fields.push((st, name));
                if sym(toks, q2, ",") {
                    proof {
                        lemma_next(toks, q2 as int);
                    }
                    q = q2 + 1;
                } else {
                    let e = expect_sym(toks, q2, ")")?;
                    return Ok((TypeDecl::OreTuple(fields), e));
                }
            }
        } else {
            Err(error_at(toks, p, "'[' or '(' after 'Ore'"))
        }
    } else if word(toks, pos, "Materials") {
        proof {
            lemma_next(toks, pos as int);
        }
        let p = expect_sym(toks, pos + 1, "<")?;
        let st = match subtype_of(toks, p) {
            Some(st) => st,
            None => {
                return Err(error_at(toks, p, "an element subtype"));
            },
        };
        proof {
            lemma_next(toks, p as int);
        }
        let q = expect_sym(toks, p + 1, ">")?;
        if word(toks, q, "New") {
            proof {
                lemma_next(toks, q as int);
            }
            Ok((TypeDecl::Materials(st, true), q + 1))
        } else {
            Ok((TypeDecl::Materials(st, false), q))
        }
    } else {
        match subtype_of(toks, pos) {
            Some(st) => {
                proof {
                    lemma_next(toks, pos as int);
                }
                Ok((TypeDecl::Number(st), pos + 1))
            },
            None => Err(error_at(toks, pos, "a type")),
        }
    }
}

/// The `i64` a text of decimal digits denotes, if it is one and fits.
pub open spec fn integer_value(s: Seq<char>) -> Option<i64> {
    if s.len() > 0 && all_digits(s) && digits_value(s) <= i64::MAX {
        Some(digits_value(s) as i64)
    } else {
        None
    }
}

/// The value of a decimal integer literal, if it fits in an `i64`.
pub fn parse_integer(text: &str) -> (r: Option<i64>)
    ensures
        r == integer_value(text@),
{
    let cs = crate::text::chars_of(text);
    if cs.len() == 0 {
        return None;
    }
    let mut v: i64 = 0;
    let mut i: usize = 0;
    while i < cs.len()
        invariant
            cs@ == text@,
            i <= cs@.len(),
            0 <= v,
            v == digits_value(cs@.take(i as int)),
            all_digits(cs@.take(i as int)),
        decreases cs.len() - i,
    {
        let c = cs[i];
        assert(cs@.take(i + 1).drop_last() =~= cs@.take(i as int));
        assert(cs@.take(i + 1).last() == c);
        if !is_digit(c) {
            assert(!all_digits(cs@));
            return None;
        }
        let d = (c as u32 - '0' as u32) as i64;
        assert(0 <= d <= 9);
        if v > (i64::MAX - d) / 10 {
            proof {
                assert(v * 10 + d > i64::MAX) by (nonlinear_arith)
                    requires
                        v > (i64::MAX - d) / 10,
                        0 <= d <= 9,
                ;
                assert(digits_value(cs@.take(i + 1)) == v * 10 + d);
                if all_digits(cs@) {
                    lemma_digits_value_grows(cs@, i + 1);
                }
            }
            return None;
        }
        assert(v * 10 + d <= i64::MAX) by (nonlinear_arith)
            requires
                v <= (i64::MAX - d) / 10,
                0 <= d <= 9,
        ;
        v = v * 10 + d;
        i += 1;
        assert(all_digits(cs@.take(i as int))) by {
            assert forall|k: int| 0 <= k < i implies is_ascii_digit(#[trigger] cs@.take(i as int)[k]) by {
                if k < i - 1 {
                    assert(cs@.take(i as int)[k] == cs@.take(i - 1)[k]);
                }
            }
        }
    }
    assert(cs@.take(i as int) =~= cs@);
    Some(v)
}

fn copy_parts(parts: &Vec<StringPart>) -> (r: Vec<StringPart>)
    ensures
        parts_view(r@) == parts_view(parts@),
{
    let mut r: Vec<StringPart> = Vec::new();
    let mut i: usize = 0;
    while i < parts.len()
        invariant
            i <= parts@.len(),
            parts_view(r@) == parts_view(parts@.take(i as int)),
        decreases parts.len() - i,
    {
        proof {
            assert(parts_view(parts@.take(i + 1)) =~= parts_view(parts@.take(i as int)).push(part_view(parts@[i as int])));
        }
        let ghost r0 = r@;
        match &parts[i] {
            StringPart::Literal(t) => r.push(StringPart::Literal(copy_string(t))),
            StringPart::Interp(t) => r.push(StringPart::Interp(copy_string(t))),
        }
        proof {
            lemma_parts_push(r0, r@.last());
            assert(r0.push(r@.last()) == r@);
        }
        i += 1;
    }
    proof {
        assert(parts@.take(i as int) =~= parts@);
    }
    r
}

/// Whether the token at `pos` is an expression on its own: an integer
/// literal that fits an `i64`, a float or string literal, or a word that is
/// not `Input` followed by `(`.
pub open spec fn atom(t: Seq<Token>, pos: int) -> bool {
    let k = t[pos].kind;
    ||| k == TokenKind::Integer && integer_value(t[pos].text@) is Some
    ||| k == TokenKind::Float
    ||| k == TokenKind::Str
    ||| k == TokenKind::Interpolated
    ||| k == TokenKind::Word && !(t[pos].text@ == "Input"@ && is_sym(t[pos + 1], "("@))
}

/// The expression an atom at `pos` denotes.
pub open spec fn atom_result(t: Seq<Token>, pos: int, e: Expr) -> bool {
    let tk = t[pos];
    match tk.kind {
        TokenKind::Integer => e matches Expr::Number(n) && !n.is_float && integer_value(tk.text@) == Some(
            n.int_val,
        ),
        TokenKind::Float => e matches Expr::Number(n) && n.is_float && n.float_text@ == tk.text@,
        TokenKind::Str | TokenKind::Interpolated => e matches Expr::Str(ps) && parts_view(ps@) == parts_view(
            tk.parts@,
        ),
        _ => if tk.text@ == "true"@ {
            e == Expr::Bool(true)
        } else if tk.text@ == "false"@ {
            e == Expr::Bool(false)
        } else {
            e matches Expr::Identifier(name) && name@ == tk.text@
        },
    }
}

/// Whether a token ends an expression: it continues none of its forms.
pub open spec fn stopper(t: Token) -> bool {
    &&& !is_sym(t, "."@) && !is_sym(t, "["@) && !is_sym(t, "("@) && !is_sym(t, "**"@)
    &&& !is_sym(t, "*"@) && !is_sym(t, "/"@) && !is_sym(t, "%"@) && !is_sym(t, "+"@) && !is_sym(t, "-"@)
    &&& comparison_named(t) is None
    &&& !is_word(t, "And"@) && !is_word(t, "Or"@) && !is_word(t, "Xor"@)
}

/// An atom at `pos` followed by a token that ends an expression.
pub open spec fn lone_atom(t: Seq<Token>, pos: int) -> bool {
    atom(t, pos) && stopper(t[pos + 1])
}

/// An atom at `pos` that no postfix form continues.
pub open spec fn plain_atom(t: Seq<Token>, pos: int) -> bool {
    &&& atom(t, pos)
    &&& !is_sym(t[pos + 1], "."@) && !is_sym(t[pos + 1], "["@) && !is_sym(t[pos + 1], "("@)
}

/// Whether `n + 1` plain atoms from `a` on are joined by `**`, and no `**`
/// follows the last.
pub open spec fn pow_chain(t: Seq<Token>, a: int, n: int) -> bool
    decreases n,
{
    plain_atom(t, a) && if n <= 0 {
        n == 0 && !is_sym(t[a + 1], "**"@)
    } else {
        is_sym(t[a + 1], "**"@) && pow_chain(t, a + 2, n - 1)
    }
}

/// `e` is a chain of `n + 1` atoms from `a` joined by `**`, grouped to the
/// right.
pub open spec fn pow_rel(t: Seq<Token>, a: int, n: int, e: Expr) -> bool
    decreases n,
{
    if n <= 0 {
        atom_result(t, a, e)
    } else {
        e matches Expr::BinaryOp { op, lhs, rhs } && op == BinOp::Pow && atom_result(t, a, *lhs) && pow_rel(
            t,
            a + 2,
            n - 1,
            *rhs,
        )
    }
}

/// `e` negates a chain of `n + 1` atoms from `a` joined by `**`: the
/// negation applies to the whole power.
pub open spec fn negated_pow(t: Seq<Token>, a: int, n: int, e: Expr) -> bool {
    e matches Expr::UnaryOp { op, operand } && op == UnOp::Neg && pow_rel(t, a, n, *operand)
}

/// A chain of atoms joined by `**` from `a`, followed by a token that ends
/// the expression.
pub open spec fn pow_expr(t: Seq<Token>, a: int, n: int) -> bool {
    pow_chain(t, a, n) && stopper(t[a + 2 * n + 1])
}

/// `-` then a chain of atoms joined by `**`, followed by a token that ends
/// the expression.
pub open spec fn neg_pow_expr(t: Seq<Token>, a: int, n: int) -> bool {
    is_sym(t[a], "-"@) && pow_chain(t, a + 1, n) && stopper(t[a + 2 * n + 2])
}

/// An atom at `pos` that no postfix form or `**` continues.
pub open spec fn bare_atom(t: Seq<Token>, pos: int) -> bool {
    &&& atom(t, pos)
    &&& !is_sym(t[pos + 1], "."@) && !is_sym(t[pos + 1], "["@) && !is_sym(t[pos + 1], "("@)
    &&& !is_sym(t[pos + 1], "**"@)
}

/// The multiplicative operator a token denotes.
pub open spec fn mul_op(t: Token) -> Option<BinOp> {
    if is_sym(t, "*"@) {
        Some(BinOp::Mul)
    } else if is_sym(t, "/"@) {
        Some(BinOp::Div)
    } else if is_sym(t, "%"@) {
        Some(BinOp::Rem)
    } else {
        None
    }
}

/// The additive operator a token denotes.
pub open spec fn add_op(t: Token) -> Option<BinOp> {
    if is_sym(t, "+"@) {
        Some(BinOp::Add)
    } else if is_sym(t, "-"@) {
        Some(BinOp::Sub)
    } else {
        None
    }
}

/// Whether a token is one of `+ - * / %`.
pub open spec fn arith_op(t: Token) -> bool {
    mul_op(t) is Some || add_op(t) is Some
}

/// Whether the `j`-th operand of a chain starting at `a` is a bare atom.
pub open spec fn operand_at(t: Seq<Token>, a: int, j: int) -> bool {
    bare_atom(t, a + 2 * j)
}

/// The token after the `j`-th operand of a chain starting at `a`.
pub open spec fn operator_at(t: Seq<Token>, a: int, j: int) -> Token {
    t[a + 2 * j + 1]
}

/// Whether `n + 1` bare atoms from `a` on are joined by `n` arithmetic
/// operators, and the token after the last is none.
pub open spec fn arith_chain(t: Seq<Token>, a: int, n: int) -> bool {
    &&& 0 <= n
    &&& forall|j: int| 0 <= j <= n ==> #[trigger] operand_at(t, a, j)
    &&& forall|j: int| 0 <= j < n ==> arith_op(#[trigger] operator_at(t, a, j))
    &&& !arith_op(operator_at(t, a, n))
}

/// Whether `n + 1` bare atoms from `a` on are joined by `n` multiplicative
/// operators, and the token after the last is none.
pub open spec fn mul_chain(t: Seq<Token>, a: int, n: int) -> bool {
    &&& 0 <= n
    &&& forall|j: int| 0 <= j <= n ==> #[trigger] operand_at(t, a, j)
    &&& forall|j: int| 0 <= j < n ==> mul_op(#[trigger] operator_at(t, a, j)) is Some
    &&& mul_op(operator_at(t, a, n)) is None
}

/// `e` is the product of the first `n + 1` operands of a chain from `a`,
/// grouped to the left.
pub open spec fn prod_rel(t: Seq<Token>, a: int, n: int, e: Expr) -> bool
    decreases n,
{
    if n <= 0 {
        atom_result(t, a, e)
    } else {
        e matches Expr::BinaryOp { op, lhs, rhs } && mul_op(operator_at(t, a, n - 1)) == Some(op)
            && prod_rel(t, a, n - 1, *lhs) && atom_result(t, a + 2 * n, *rhs)
    }
}

/// The first operand of the run of multiplicative operators that ends at
/// operand `n` of a chain from `a`.
pub open spec fn run_begin(t: Seq<Token>, a: int, n: int) -> int
    decreases n,
{
    if n <= 0 || mul_op(operator_at(t, a, n - 1)) is None {
        n
    } else {
        run_begin(t, a, n - 1)
    }
}

/// `e` is the first `n + 1` operands of a chain from `a` read with the usual
/// precedence: products of the operands joined by `*`, `/` and `%`, then
/// those joined by `+` and `-`, each grouped to the left.
pub open spec fn sum_rel(t: Seq<Token>, a: int, n: int, e: Expr) -> bool
    decreases n,
{
    let s = run_begin(t, a, n);
    if s <= 0 || s > n {
        prod_rel(t, a, n, e)
    } else {
        e matches Expr::BinaryOp { op, lhs, rhs } && add_op(operator_at(t, a, s - 1)) == Some(op) && sum_rel(
            t,
            a,
            s - 1,
            *lhs,
        ) && prod_rel(t, a + 2 * s, n - s, *rhs)
    }
}

/// A chain of `n + 1` operands from `a`, followed by a token that ends the
/// expression.
pub open spec fn arith_expr(t: Seq<Token>, a: int, n: int) -> bool {
    &&& arith_chain(t, a, n)
    &&& stopper(operator_at(t, a, n))
}

/// Two atoms with a comparison symbol between them from `pos` on, the first
/// continued by no postfix form and the second followed by a token that ends
/// the expression.
pub open spec fn comparison_form(t: Seq<Token>, pos: int) -> bool {
    &&& bare_atom(t, pos)
    &&& comparison_named(t[pos + 1]) is Some
    &&& lone_atom(t, pos + 2)
}

/// `e` compares the atom at `pos` with the atom at `pos + 2` by the operator
/// that the symbol between them spells.
pub open spec fn comparison_result(t: Seq<Token>, pos: int, e: Expr) -> bool {
    e matches Expr::BinaryOp { op, lhs, rhs } && t[pos + 1].kind == TokenKind::Symbol && t[pos + 1].text@
        == comparison_spelling(op) && atom_result(t, pos, *lhs) && atom_result(t, pos + 2, *rhs)
}

/// The number of multiplicative operators that follow operand `a`, at most `n`.
pub open spec fn mul_len(t: Seq<Token>, a: int, n: int) -> int
    decreases n,
{
    if n <= 0 || mul_op(t[a + 1]) is None {
        0
    } else {
        1 + mul_len(t, a + 2, n - 1)
    }
}

/// The operands of a chain from `a` up to its first additive operator form a
/// multiplicative chain.
proof fn lemma_mul_len(t: Seq<Token>, a: int, n: int)
    requires
        arith_chain(t, a, n),
    ensures
        0 <= mul_len(t, a, n) <= n,
        mul_chain(t, a, mul_len(t, a, n)),
        mul_len(t, a, n) < n ==> add_op(operator_at(t, a, mul_len(t, a, n))) is Some,
    decreases n,
{
    assert(operand_at(t, a, 0));
    if n > 0 && mul_op(t[a + 1]) is Some {
        assert(operator_at(t, a, 0) == t[a + 1]);
        assert forall|j: int| 0 <= j <= n - 1 implies #[trigger] operand_at(t, a + 2, j) by {
            assert(operand_at(t, a, j + 1));
        }
        assert forall|j: int| 0 <= j < n - 1 implies arith_op(#[trigger] operator_at(t, a + 2, j)) by {
            assert(arith_op(operator_at(t, a, j + 1)));
        }
        assert(operator_at(t, a + 2, n - 1) == operator_at(t, a, n));
        lemma_mul_len(t, a + 2, n - 1);
        let m = mul_len(t, a + 2, n - 1);
        assert forall|j: int| 0 <= j <= m + 1 implies #[trigger] operand_at(t, a, j) by {}
        assert forall|j: int| 0 <= j < m + 1 implies mul_op(#[trigger] operator_at(t, a, j)) is Some by {
            if j > 0 {
                assert(mul_op(operator_at(t, a + 2, j - 1)) is Some);
            }
        }
        assert(operator_at(t, a + 2, m) == operator_at(t, a, m + 1));
    } else {
        assert(operator_at(t, a, 0) == t[a + 1]);
        if n > 0 {
            assert(arith_op(operator_at(t, a, 0)));
        }
    }
}

/// The operands of a chain from its `k`-th on form a chain.
proof fn lemma_chain_suffix(t: Seq<Token>, a: int, n: int, k: int)
    requires
        arith_chain(t, a, n),
        0 <= k <= n,
    ensures
        arith_chain(t, a + 2 * k, n - k),
{
    assert forall|j: int| 0 <= j <= n - k implies #[trigger] operand_at(t, a + 2 * k, j) by {
        assert(operand_at(t, a, j + k));
    }
    assert forall|j: int| 0 <= j < n - k implies arith_op(#[trigger] operator_at(t, a + 2 * k, j)) by {
        assert(arith_op(operator_at(t, a, j + k)));
    }
    assert(operator_at(t, a + 2 * k, n - k) == operator_at(t, a, n));
}

/// Where the multiplicative operators from operand `s` to operand `k` begin
/// after a non-multiplicative token, the run ending at `k` begins at `s`.
proof fn lemma_run_begin(t: Seq<Token>, a: int, s: int, k: int)
    requires
        0 <= s <= k,
        forall|i: int| s <= i < k ==> mul_op(#[trigger] operator_at(t, a, i)) is Some,
        s == 0 || mul_op(operator_at(t, a, s - 1)) is None,
    ensures
        run_begin(t, a, k) == s,
    decreases k,
{
    if k > s {
        assert(mul_op(operator_at(t, a, k - 1)) is Some);
        lemma_run_begin(t, a, s, k - 1);
    }
}

/// Parses a comma-separated list of expressions up to the closing symbol
/// `close`, which it consumes.
fn parse_expr_list(toks: &Vec<Token>, pos: usize, close: &str) -> (r: Result<(Vec<Expr>, usize), ForgeError>)
    requires
        at_token(toks, pos as int),
    ensures
        r matches Ok((_, p)) ==> pos < p < toks@.len(),
        is_sym(toks@[pos as int], close@) ==> (r matches Ok((items, q)) && items@.len() == 0 && q == pos + 1),
    decreases toks@.len() - pos, 11int,
{
    let mut items: Vec<Expr> = Vec::new();
    if sym(toks, pos, close) {
        proof {
            lemma_next(toks, pos as int);
        }
        return Ok((items, pos + 1));
    }
    let mut p = pos;
    loop
        invariant
            at_token(toks, p as int),
            pos <= p,
            !is_sym(toks@[pos as int], close@),
        decreases toks@.len() - p,
    {
        let (e, q) = parse_expr(toks, p)?;
        items.push(e);
        if sym(toks, q, ",") {
            proof {
                lemma_next(toks, q as int);
            }
            p = q + 1;
        } else {
            let r = expect_sym(toks, q, close)?;
            return Ok((items, r));
        }
    }
}

/// Parses an expression. Atoms joined by `+ - * / %` read with the usual
/// precedence: `*`, `/` and `%` bind tighter than `+` and `-`, and operators
/// of one level group to the left (see `sum_rel`). Atoms joined by `**`
/// group to the right, and a leading `-` negates the whole power
/// (see `pow_rel` and `negated_pow`).
pub fn parse_expr(toks: &Vec<Token>, pos: usize) -> (r: Result<(Expr, usize), ForgeError>)
    requires
        at_token(toks, pos as int),
    ensures
        advanced(r, toks@, pos as int),
        lone_atom(toks@, pos as int) ==> (r matches Ok((e, q)) && q == pos + 1 && atom_result(toks@, pos as int, e)),
        forall|n: int|
            #[trigger] arith_expr(toks@, pos as int, n) ==> (r matches Ok((e, q)) && q == pos + 2 * n + 1
                && sum_rel(toks@, pos as int, n, e)),
        forall|n: int|
            #[trigger] pow_expr(toks@, pos as int, n) ==> (r matches Ok((e, q)) && q == pos + 2 * n + 1
                && pow_rel(toks@, pos as int, n, e)),
        forall|n: int|
            #[trigger] neg_pow_expr(toks@, pos as int, n) ==> (r matches Ok((e, q)) && q == pos + 2 * n + 2
                && negated_pow(toks@, pos + 1, n, e)),
        comparison_form(toks@, pos as int) ==> (r matches Ok((e, q)) && q == pos + 3 && comparison_result(
            toks@,
            pos as int,
            e,
        )),
    decreases toks@.len() - pos, 10int,
{
    parse_logic(toks, pos, 2)
}

/// Parses the chains of `Xor` (level 2), `Or` (level 1) and `And` (level 0).
fn parse_logic(toks: &Vec<Token>, pos: usize, level: u8) -> (r: Result<(Expr, usize), ForgeError>)
    requires
        at_token(toks, pos as int),
        level <= 2,
    ensures
        advanced(r, toks@, pos as int),
        lone_atom(toks@, pos as int) ==> (r matches Ok((e, q)) && q == pos + 1 && atom_result(toks@, pos as int, e)),
        forall|n: int|
            #[trigger] arith_expr(toks@, pos as int, n) ==> (r matches Ok((e, q)) && q == pos + 2 * n + 1
                && sum_rel(toks@, pos as int, n, e)),
        forall|n: int|
            #[trigger] pow_expr(toks@, pos as int, n) ==> (r matches Ok((e, q)) && q == pos + 2 * n + 1
                && pow_rel(toks@, pos as int, n, e)),
        forall|n: int|
            #[trigger] neg_pow_expr(toks@, pos as int, n) ==> (r matches Ok((e, q)) && q == pos + 2 * n + 2
                && negated_pow(toks@, pos + 1, n, e)),
        comparison_form(toks@, pos as int) ==> (r matches Ok((e, q)) && q == pos + 3 && comparison_result(
            toks@,
            pos as int,
            e,
        )),
    decreases toks@.len() - pos, 7 + level,
{
    let (op, keyword) = if level == 2 {
        (BinOp::Xor, "Xor")
    } else if level == 1 {
        (BinOp::Or, "Or")
    } else {
        (BinOp::And, "And")
    };
    let (mut acc, mut p) = if level == 0 {
        parse_comparison(toks, pos)?
    } else {
        parse_logic(toks, pos, level - 1)?
    };
    while word(toks, p, keyword)
        invariant
            at_token(toks, p as int),
            pos < p,
            level <= 2,
            keyword@ == "Xor"@ || keyword@ == "Or"@ || keyword@ == "And"@,
            comparison_form(toks@, pos as int) ==> p == pos + 3 && comparison_result(toks@, pos as int, acc),
            lone_atom(toks@, pos as int) ==> p == pos + 1 && atom_result(toks@, pos as int, acc),
            forall|n: int|
                #[trigger] pow_expr(toks@, pos as int, n) ==> p == pos + 2 * n + 1 && pow_rel(
                    toks@,
                    pos as int,
                    n,
                    acc,
                ),
            forall|n: int|
                #[trigger] neg_pow_expr(toks@, pos as int, n) ==> p == pos + 2 * n + 2 && negated_pow(
                    toks@,
                    pos + 1,
                    n,
                    acc,
                ),
            forall|n: int|
                #[trigger] arith_expr(toks@, pos as int, n) ==> p == pos + 2 * n + 1 && sum_rel(
                    toks@,
                    pos as int,
                    n,
                    acc,
                ),

        decreases toks@.len() - p,
    {
        proof {
            lemma_next(toks, p as int);
            assert(!comparison_form(toks@, pos as int));
            assert forall|n: int| !#[trigger] pow_expr(toks@, pos as int, n) && !#[trigger] neg_pow_expr(
                toks@,
                pos as int,
                n,
            ) by {}
            assert forall|n: int| !#[trigger] arith_expr(toks@, pos as int, n) by {
                if arith_expr(toks@, pos as int, n) {
                    assert(operator_at(toks@, pos as int, n) == toks@[p as int]);
                }
            }
        }
        let (rhs, q) = if level == 0 {
            parse_comparison(toks, p + 1)?
        } else {
            parse_logic(toks, p + 1, level - 1)?
        };
        acc = Expr::BinaryOp { op, lhs: Box::new(acc), rhs: Box::new(rhs) };
        p = q;
    }
    Ok((acc, p))
}

fn comparison_op(toks: &Vec<Token>, pos: usize) -> (r: Option<BinOp>)
    requires
        at_token(toks, pos as int),
    ensures
        r == comparison_named(toks@[pos as int]),
        r is Some ==> toks@[pos as int].kind == TokenKind::Symbol,
        r matches Some(op) ==> toks@[pos as int].text@ == comparison_spelling(op),
{
    proof {
        lemma_comparison_spelled(toks@[pos as int]);
    }
    if sym(toks, pos, "==") {
        Some(BinOp::Eq)
    } else if sym(toks, pos, "!=") {
        Some(BinOp::Ne)
    } else if sym(toks, pos, "<=") {
        Some(BinOp::Le)
    } else if sym(toks, pos, ">=") {
        Some(BinOp::Ge)
    } else if sym(toks, pos, "<") {
        Some(BinOp::Lt)
    } else if sym(toks, pos, ">") {
        Some(BinOp::Gt)
    } else {
        None
    }
}

fn parse_comparison(toks: &Vec<Token>, pos: usize) -> (r: Result<(Expr, usize), ForgeError>)
    requires
        at_token(toks, pos as int),
    ensures
        advanced(r, toks@, pos as int),
        lone_atom(toks@, pos as int) ==> (r matches Ok((e, q)) && q == pos + 1 && atom_result(toks@, pos as int, e)),
        forall|n: int|
            #[trigger] arith_expr(toks@, pos as int, n) ==> (r matches Ok((e, q)) && q == pos + 2 * n + 1
                && sum_rel(toks@, pos as int, n, e)),
        forall|n: int|
            #[trigger] pow_expr(toks@, pos as int, n) ==> (r matches Ok((e, q)) && q == pos + 2 * n + 1
                && pow_rel(toks@, pos as int, n, e)),
        forall|n: int|
            #[trigger] neg_pow_expr(toks@, pos as int, n) ==> (r matches Ok((e, q)) && q == pos + 2 * n + 2
                && negated_pow(toks@, pos + 1, n, e)),
        comparison_form(toks@, pos as int) ==> (r matches Ok((e, q)) && q == pos + 3 && comparison_result(
            toks@,
            pos as int,
            e,
        )),
    decreases toks@.len() - pos, 6int,
{
    proof {
        if comparison_form(toks@, pos as int) {
            lemma_comparison_spelled(toks@[pos + 1]);
            assert(operand_at(toks@, pos as int, 0));
            assert(operator_at(toks@, pos as int, 0) == toks@[pos + 1]);
            assert(arith_chain(toks@, pos as int, 0));
        }
    }
    let (mut acc, mut p) = parse_additive(toks, pos)?;
    proof {
        if comparison_form(toks@, pos as int) {
            assert(arith_chain(toks@, pos as int, 0));
            assert(sum_rel(toks@, pos as int, 0, acc));
        }
    }
    loop
        invariant
            at_token(toks, p as int),
            pos < p,
            comparison_form(toks@, pos as int) ==> (p == pos + 1 && atom_result(toks@, pos as int, acc)) || (p
                == pos + 3 && comparison_result(toks@, pos as int, acc)),
            lone_atom(toks@, pos as int) ==> p == pos + 1 && atom_result(toks@, pos as int, acc),
            forall|n: int|
                #[trigger] pow_expr(toks@, pos as int, n) ==> p == pos + 2 * n + 1 && pow_rel(
                    toks@,
                    pos as int,
                    n,
                    acc,
                ),
            forall|n: int|
                #[trigger] neg_pow_expr(toks@, pos as int, n) ==> p == pos + 2 * n + 2 && negated_pow(
                    toks@,
                    pos + 1,
                    n,
                    acc,
                ),
            forall|n: int|
                #[trigger] arith_expr(toks@, pos as int, n) ==> p == pos + 2 * n + 1 && sum_rel(
                    toks@,
                    pos as int,
                    n,
                    acc,
                ),

        decreases toks@.len() - p,
    {
        let op = match comparison_op(toks, p) {
            Some(op) => op,
            None => {
                return Ok((acc, p));
            },
        };
        proof {
            assert forall|n: int| !#[trigger] pow_expr(toks@, pos as int, n) && !#[trigger] neg_pow_expr(
                toks@,
                pos as int,
                n,
            ) by {}
            assert forall|n: int| !#[trigger] arith_expr(toks@, pos as int, n) by {
                if arith_expr(toks@, pos as int, n) {
                    assert(operator_at(toks@, pos as int, n) == toks@[p as int]);
                }
            }
        }
        proof {
            lemma_next(toks, p as int);
            if comparison_form(toks@, pos as int) {
                assert(p == pos + 1);
                assert(operand_at(toks@, p + 1, 0));
                assert(operator_at(toks@, p + 1, 0) == toks@[pos + 3]);
                assert(arith_chain(toks@, p + 1, 0));
            }
        }
        let ghost acc0 = acc;
        let (rhs, q) = parse_additive(toks, p + 1)?;
        proof {
            if comparison_form(toks@, pos as int) {
                assert(arith_chain(toks@, p + 1, 0));
                assert(sum_rel(toks@, p + 1, 0, rhs));
            }
        }
        acc = Expr::BinaryOp { op, lhs: Box::new(acc), rhs: Box::new(rhs) };
        p = q;
    }
}

fn parse_additive(toks: &Vec<Token>, pos: usize) -> (r: Result<(Expr, usize), ForgeError>)
    requires
        at_token(toks, pos as int),
    ensures
        advanced(r, toks@, pos as int),
        lone_atom(toks@, pos as int) ==> (r matches Ok((e, q)) && q == pos + 1 && atom_result(toks@, pos as int, e)),
        forall|n: int|
            #[trigger] arith_chain(toks@, pos as int, n) ==> (r matches Ok((e, q)) && q == pos + 2 * n + 1
                && sum_rel(toks@, pos as int, n, e)),
        forall|n: int|
            #[trigger] pow_expr(toks@, pos as int, n) ==> (r matches Ok((e, q)) && q == pos + 2 * n + 1
                && pow_rel(toks@, pos as int, n, e)),
        forall|n: int|
            #[trigger] neg_pow_expr(toks@, pos as int, n) ==> (r matches Ok((e, q)) && q == pos + 2 * n + 2
                && negated_pow(toks@, pos + 1, n, e)),
    decreases toks@.len() - pos, 5int,
{
    proof {
        assert forall|n: int| #[trigger] arith_chain(toks@, pos as int, n) implies mul_chain(
            toks@,
            pos as int,
            mul_len(toks@, pos as int, n),
        ) by {
            lemma_mul_len(toks@, pos as int, n);
        }
    }
    let (mut acc, mut p) = parse_multiplicative(toks, pos)?;
    let ghost mut j: int = (p - pos - 1) / 2;
    proof {
        assert forall|n: int| #[trigger] arith_chain(toks@, pos as int, n) implies 0 <= j <= n && p == pos + 2 * j
            + 1 && sum_rel(toks@, pos as int, j, acc) && (j < n ==> add_op(operator_at(toks@, pos as int, j)) is Some) by {
            lemma_mul_len(toks@, pos as int, n);
            let m = mul_len(toks@, pos as int, n);
            assert(mul_chain(toks@, pos as int, m));
            assert(j == m);
            lemma_run_begin(toks@, pos as int, 0, m);
        }
    }
    loop
        invariant
            at_token(toks, p as int),
            pos < p,
            lone_atom(toks@, pos as int) ==> p == pos + 1 && atom_result(toks@, pos as int, acc),
            forall|n: int|
                #[trigger] pow_expr(toks@, pos as int, n) ==> p == pos + 2 * n + 1 && pow_rel(
                    toks@,
                    pos as int,
                    n,
                    acc,
                ),
            forall|n: int|
                #[trigger] neg_pow_expr(toks@, pos as int, n) ==> p == pos + 2 * n + 2 && negated_pow(
                    toks@,
                    pos + 1,
                    n,
                    acc,
                ),
            forall|n: int|
                #[trigger] arith_chain(toks@, pos as int, n) ==> 0 <= j <= n && p == pos + 2 * j + 1 && sum_rel(
                    toks@,
                    pos as int,
                    j,
                    acc,
                ) && (j < n ==> add_op(operator_at(toks@, pos as int, j)) is Some),

        decreases toks@.len() - p,
    {
        let op = if sym(toks, p, "+") {
            BinOp::Add
        } else if sym(toks, p, "-") {
            BinOp::Sub
        } else {
            proof {
                assert forall|n: int| #[trigger] arith_chain(toks@, pos as int, n) implies j == n by {
                    if j < n {
                        assert(add_op(operator_at(toks@, pos as int, j)) is Some);
                    }
                }
            }
            return Ok((acc, p));
        };
        proof {
            lemma_next(toks, p as int);
            assert forall|n: int| !#[trigger] pow_expr(toks@, pos as int, n) && !#[trigger] neg_pow_expr(
                toks@,
                pos as int,
                n,
            ) by {}
            assert forall|n: int| #[trigger] arith_chain(toks@, pos as int, n) implies j < n && mul_chain(
                toks@,
                p + 1,
                mul_len(toks@, p + 1, n - j - 1),
            ) && add_op(operator_at(toks@, pos as int, j)) == Some(op) by {
                if j == n {
                    assert(!arith_op(operator_at(toks@, pos as int, n)));
                }
                lemma_chain_suffix(toks@, pos as int, n, j + 1);
                lemma_mul_len(toks@, p + 1, n - j - 1);
            }
        }
        let (rhs, q) = parse_multiplicative(toks, p + 1)?;
        let ghost acc0 = acc;
        let ghost j0 = j;
        let ghost p0 = p;
        acc = Expr::BinaryOp { op, lhs: Box::new(acc), rhs: Box::new(rhs) };
        p = q;
        proof {
            j = (p - pos - 1) / 2;
            assert forall|n: int| #[trigger] arith_chain(toks@, pos as int, n) implies 0 <= j <= n && p == pos + 2
                * j + 1 && sum_rel(toks@, pos as int, j, acc) && (j < n ==> add_op(
                operator_at(toks@, pos as int, j),
            ) is Some) by {
                lemma_chain_suffix(toks@, pos as int, n, j0 + 1);
                lemma_mul_len(toks@, p0 + 1, n - j0 - 1);
                let m = mul_len(toks@, p0 + 1, n - j0 - 1);
                assert(mul_chain(toks@, p0 + 1, m));
                assert(j == j0 + 1 + m);
                assert forall|i: int| j0 + 1 <= i < j implies mul_op(#[trigger] operator_at(toks@, pos as int, i))
                    is Some by {
                    assert(mul_op(operator_at(toks@, p0 + 1, i - j0 - 1)) is Some);
                    assert(operator_at(toks@, p0 + 1, i - j0 - 1) == operator_at(toks@, pos as int, i));
                }
                reveal_strlit("+");
                reveal_strlit("-");
                reveal_strlit("*");
                reveal_strlit("/");
                reveal_strlit("%");
                assert(add_op(operator_at(toks@, pos as int, j0)) == Some(op));
                assert("+"@[0] != "*"@[0] && "+"@[0] != "/"@[0] && "+"@[0] != "%"@[0]);
                assert("-"@[0] != "*"@[0] && "-"@[0] != "/"@[0] && "-"@[0] != "%"@[0]);
                assert(mul_op(operator_at(toks@, pos as int, j0)) is None);
                lemma_run_begin(toks@, pos as int, j0 + 1, j);
                assert(prod_rel(toks@, p0 + 1, m, rhs));
                assert(p0 + 1 == pos + 2 * (j0 + 1));
                assert(sum_rel(toks@, pos as int, j0, acc0));
                if j < n {
                    assert(operator_at(toks@, p0 + 1, m) == operator_at(toks@, pos as int, j));
                }
            }
        }
    }
}

fn parse_multiplicative(toks: &Vec<Token>, pos: usize) -> (r: Result<(Expr, usize), ForgeError>)
    requires
        at_token(toks, pos as int),
    ensures
        advanced(r, toks@, pos as int),
        lone_atom(toks@, pos as int) ==> (r matches Ok((e, q)) && q == pos + 1 && atom_result(toks@, pos as int, e)),
        forall|n: int|
            #[trigger] mul_chain(toks@, pos as int, n) ==> (r matches Ok((e, q)) && q == pos + 2 * n + 1
                && prod_rel(toks@, pos as int, n, e)),
        forall|n: int|
            #[trigger] pow_expr(toks@, pos as int, n) ==> (r matches Ok((e, q)) && q == pos + 2 * n + 1
                && pow_rel(toks@, pos as int, n, e)),
        forall|n: int|
            #[trigger] neg_pow_expr(toks@, pos as int, n) ==> (r matches Ok((e, q)) && q == pos + 2 * n + 2
                && negated_pow(toks@, pos + 1, n, e)),
    decreases toks@.len() - pos, 4int,
{
    proof {
        assert forall|n: int| #[trigger] mul_chain(toks@, pos as int, n) implies bare_atom(toks@, pos as int) by {
            assert(operand_at(toks@, pos as int, 0));
        }
    }
    let (mut acc, mut p) = parse_unary(toks, pos)?;
    let ghost mut j: int = 0;
    loop
        invariant
            at_token(toks, p as int),
            pos < p,
            lone_atom(toks@, pos as int) ==> p == pos + 1 && atom_result(toks@, pos as int, acc),
            forall|n: int|
                #[trigger] pow_expr(toks@, pos as int, n) ==> p == pos + 2 * n + 1 && pow_rel(
                    toks@,
                    pos as int,
                    n,
                    acc,
                ),
            forall|n: int|
                #[trigger] neg_pow_expr(toks@, pos as int, n) ==> p == pos + 2 * n + 2 && negated_pow(
                    toks@,
                    pos + 1,
                    n,
                    acc,
                ),
            forall|n: int|
                #[trigger] mul_chain(toks@, pos as int, n) ==> 0 <= j <= n && p == pos + 2 * j + 1 && prod_rel(
                    toks@,
                    pos as int,
                    j,
                    acc,
                ),

        decreases toks@.len() - p,
    {
        let op = if sym(toks, p, "*") {
            BinOp::Mul
        } else if sym(toks, p, "/") {
            BinOp::Div
        } else if sym(toks, p, "%") {
            BinOp::Rem
        } else {
            proof {
                assert forall|n: int| #[trigger] mul_chain(toks@, pos as int, n) implies j == n by {
                    if j < n {
                        assert(mul_op(operator_at(toks@, pos as int, j)) is Some);
                    }
                }
            }
            return Ok((acc, p));
        };
        proof {
            lemma_next(toks, p as int);
            assert forall|n: int| !#[trigger] pow_expr(toks@, pos as int, n) && !#[trigger] neg_pow_expr(
                toks@,
                pos as int,
                n,
            ) by {}
            assert forall|n: int| #[trigger] mul_chain(toks@, pos as int, n) implies j < n && bare_atom(
                toks@,
                p + 1,
            ) && mul_op(operator_at(toks@, pos as int, j)) == Some(op) by {
                if j == n {
                    assert(mul_op(operator_at(toks@, pos as int, n)) is None);
                }
                assert(operand_at(toks@, pos as int, j + 1));
            }
        }
        let (rhs, q) = parse_unary(toks, p + 1)?;
        let ghost acc0 = acc;
        acc = Expr::BinaryOp { op, lhs: Box::new(acc), rhs: Box::new(rhs) };
        p = q;
        proof {
            j = j + 1;
            assert forall|n: int| #[trigger] mul_chain(toks@, pos as int, n) implies 0 <= j <= n && p == pos + 2
                * j + 1 && prod_rel(toks@, pos as int, j, acc) by {
                assert(prod_rel(toks@, pos as int, j - 1, acc0));
            }
        }
    }
}

fn parse_unary(toks: &Vec<Token>, pos: usize) -> (r: Result<(Expr, usize), ForgeError>)
    requires
        at_token(toks, pos as int),
    ensures
        advanced(r, toks@, pos as int),
        lone_atom(toks@, pos as int) ==> (r matches Ok((e, q)) && q == pos + 1 && atom_result(toks@, pos as int, e)),
        bare_atom(toks@, pos as int) ==> (r matches Ok((e, q)) && q == pos + 1 && atom_result(toks@, pos as int, e)),
        forall|n: int|
            #[trigger] pow_chain(toks@, pos as int, n) ==> (r matches Ok((e, q)) && q == pos + 2 * n + 1
                && pow_rel(toks@, pos as int, n, e)),
        forall|n: int|
            is_sym(toks@[pos as int], "-"@) && #[trigger] pow_chain(toks@, pos + 1, n) ==> (r matches Ok((e, q))
                && q == pos + 2 * n + 2 && negated_pow(toks@, pos + 1, n, e)),
    decreases toks@.len() - pos, 3int,
{
    let mut ops: Vec<UnOp> = Vec::new();
    let mut p = pos;
    proof {
        reveal_strlit("+");
        reveal_strlit("-");
        assert("+"@[0] != "-"@[0]);
    }
    while sym(toks, p, "+") || sym(toks, p, "-")
        invariant
            at_token(toks, p as int),
            pos <= p,
            lone_atom(toks@, pos as int) ==> p == pos && ops@.len() == 0,
            bare_atom(toks@, pos as int) ==> p == pos && ops@.len() == 0,
            forall|n: int| #[trigger] pow_chain(toks@, pos as int, n) ==> p == pos && ops@.len() == 0,
            forall|n: int|
                is_sym(toks@[pos as int], "-"@) && #[trigger] pow_chain(toks@, pos + 1, n) ==> (p == pos
                    && ops@.len() == 0) || (p == pos + 1 && ops@ == seq![UnOp::Neg]),
            "+"@[0] != "-"@[0],
        decreases toks@.len() - p,
    {
        if sym(toks, p, "+") {
            ops.push(UnOp::Plus);
        } else {
            ops.push(UnOp::Neg);
        }
        proof {
            lemma_next(toks, p as int);
        }
        p = p + 1;
    }
    proof {
        assert forall|n: int|
            is_sym(toks@[pos as int], "-"@) && #[trigger] pow_chain(toks@, pos + 1, n) implies p == pos + 1
            && ops@ == seq![UnOp::Neg] by {
            if p == pos {
                assert(atom(toks@, pos + 1));
            }
        }
    }
    let (mut inner, q) = parse_power(toks, p)?;
    let mut k = ops.len();
    while k > 0
        invariant
            k <= ops@.len(),
            lone_atom(toks@, pos as int) ==> k == 0 && q == pos + 1 && atom_result(toks@, pos as int, inner),
            bare_atom(toks@, pos as int) ==> k == 0 && q == pos + 1 && atom_result(toks@, pos as int, inner),
            forall|n: int| #[trigger] pow_chain(toks@, pos as int, n) ==> k == 0 && q == pos + 2 * n + 1
                && pow_rel(toks@, pos as int, n, inner),
            forall|n: int|
                is_sym(toks@[pos as int], "-"@) && #[trigger] pow_chain(toks@, pos + 1, n) ==> ops@ == seq![
                    UnOp::Neg,
                ] && q == pos + 2 * n + 2 && ((k == 1 && pow_rel(toks@, pos + 1, n, inner)) || (k == 0
                    && negated_pow(toks@, pos + 1, n, inner))),
        decreases k,
    {
        k -= 1;
        inner = Expr::UnaryOp { op: ops[k], operand: Box::new(inner) };
    }
    Ok((inner, q))
}

fn parse_power(toks: &Vec<Token>, pos: usize) -> (r: Result<(Expr, usize), ForgeError>)
    requires
        at_token(toks, pos as int),
    ensures
        advanced(r, toks@, pos as int),
        lone_atom(toks@, pos as int) ==> (r matches Ok((e, q)) && q == pos + 1 && atom_result(toks@, pos as int, e)),
        bare_atom(toks@, pos as int) ==> (r matches Ok((e, q)) && q == pos + 1 && atom_result(toks@, pos as int, e)),
        forall|n: int|
            #[trigger] pow_chain(toks@, pos as int, n) ==> (r matches Ok((e, q)) && q == pos + 2 * n + 1
                && pow_rel(toks@, pos as int, n, e)),
    decreases toks@.len() - pos, 2int,
{
    let (base, p) = parse_postfix(toks, pos)?;
    if sym(toks, p, "**") {
        proof {
            lemma_next(toks, p as int);
            assert forall|n: int| #[trigger] pow_chain(toks@, pos as int, n) implies n > 0 && pow_chain(
                toks@,
                p + 1,
                n - 1,
            ) by {}
        }
        let (rhs, q) = parse_unary(toks, p + 1)?;
        Ok((Expr::BinaryOp { op: BinOp::Pow, lhs: Box::new(base), rhs: Box::new(rhs) }, q))
    } else {
        Ok((base, p))
    }
}

fn parse_postfix(toks: &Vec<Token>, pos: usize) -> (r: Result<(Expr, usize), ForgeError>)
    requires
        at_token(toks, pos as int),
    ensures
        advanced(r, toks@, pos as int),
        lone_atom(toks@, pos as int) ==> (r matches Ok((e, q)) && q == pos + 1 && atom_result(toks@, pos as int, e)),
        plain_atom(toks@, pos as int) ==> (r matches Ok((e, q)) && q == pos + 1 && atom_result(toks@, pos as int, e)),
    decreases toks@.len() - pos, 1int,
{
    let (mut acc, mut p) = parse_primary(toks, pos)?;
    loop
        invariant
            at_token(toks, p as int),
            pos < p,
            lone_atom(toks@, pos as int) ==> p == pos + 1 && atom_result(toks@, pos as int, acc),
            plain_atom(toks@, pos as int) ==> p == pos + 1 && atom_result(toks@, pos as int, acc),

        decreases toks@.len() - p,
    {
        if sym(toks, p, ".") {
            proof {
                lemma_next(toks, p as int);
            }
            let (member, q) = expect_ident(toks, p + 1)?;
            acc = Expr::MemberAccess { object: Box::new(acc), member };
            p = q;
        } else if sym(toks, p, "[") {
            proof {
                lemma_next(toks, p as int);
            }
            let (index, q) = parse_expr(toks, p + 1)?;
            let q2 = expect_sym(toks, q, "]")?;
            acc = Expr::IndexAccess { object: Box::new(acc), index: Box::new(index) };
            p = q2;
        } else if sym(toks, p, "(") {
            proof {
                lemma_next(toks, p as int);
            }
            let (args, q) = parse_expr_list(toks, p + 1, ")")?;
            acc = match acc {
                Expr::Identifier(name) => Expr::Call { callee: name, args },
                Expr::MemberAccess { object, member } => {
                    let namespace = match &*object {
                        Expr::Identifier(n) => {
                            if str_eq(n.as_str(), "Program") {
                                Some(copy_string(n))
                            } else {
                                None
                            }
                        },
                        _ => None,
                    };
                    match namespace {
                        Some(namespace) => Expr::NamespaceCall { namespace, method: member, args },
                        None => Expr::MethodCall { object, method: member, args },
                    }
                },
                _ => {
                    return Err(ForgeError::parse(owned("not yet implemented: call on non-identifier")));
                },
            };
            p = q;
        } else {
            return Ok((acc, p));
        }
    }
}

fn parse_primary(toks: &Vec<Token>, pos: usize) -> (r: Result<(Expr, usize), ForgeError>)
    requires
        at_token(toks, pos as int),
    ensures
        advanced(r, toks@, pos as int),
        lone_atom(toks@, pos as int) ==> (r matches Ok((e, q)) && q == pos + 1 && atom_result(toks@, pos as int, e)),
        atom(toks@, pos as int) ==> (r matches Ok((e, q)) && q == pos + 1 && atom_result(toks@, pos as int, e)),
        toks@[pos as int].kind == TokenKind::Integer ==> (r is Ok <==> integer_value(toks@[pos as int].text@) is Some),
        toks@[pos as int].kind == TokenKind::End ==> r is Err,
        toks@[pos as int].kind == TokenKind::Symbol && !is_sym(toks@[pos as int], "("@) && !is_sym(toks@[pos as int], "["@) ==> r is Err,
    decreases toks@.len() - pos, 0int,
{
    let t = &toks[pos];
    if t.kind == TokenKind::End {
        return Err(error_at(toks, pos, "an expression"));
    }
    proof {
        lemma_next(toks, pos as int);
    }
    match t.kind {
        TokenKind::Integer => match parse_integer(t.text.as_str()) {
            Some(v) => Ok((
                Expr::Number(NumberLiteral { int_val: v, float_text: String::new(), is_float: false }),
                pos + 1,
            )),
            None => Err(ForgeError::new(owned("integer literal out of range"), t.line, t.col)),
        },
        TokenKind::Float => Ok((
            Expr::Number(NumberLiteral { int_val: 0, float_text: copy_string(&t.text), is_float: true }),
            pos + 1,
        )),
        TokenKind::Str | TokenKind::Interpolated => Ok((Expr::Str(copy_parts(&t.parts)), pos + 1)),
        TokenKind::Word => {
            if str_eq(t.text.as_str(), "true") {
                Ok((Expr::Bool(true), pos + 1))
            } else if str_eq(t.text.as_str(), "false") {
                Ok((Expr::Bool(false), pos + 1))
            } else if str_eq(t.text.as_str(), "Input") && sym(toks, pos + 1, "(") {
                proof {
                    lemma_next(toks, pos + 1);
                }
                let p = pos + 2;
                match subtype_of(toks, p) {
                    Some(st) => {
                        proof {
                            lemma_next(toks, p as int);
                        }
                        let q = expect_sym(toks, p + 1, ")")?;
                        Ok((Expr::Input(InputNode { subtype: Some(st) }), q))
                    },
                    None => {
                        let q = expect_sym(toks, p, ")")?;
                        Ok((Expr::Input(InputNode { subtype: None }), q))
                    },
                }
            } else {
                Ok((Expr::Identifier(copy_string(&t.text)), pos + 1))
            }
        },
        _ => {
            if sym(toks, pos, "(") {
                let (first, p) = parse_expr(toks, pos + 1)?;
                if sym(toks, p, ",") {
                    proof {
                        lemma_next(toks, p as int);
                    }
                    let (rest, q) = parse_expr_list(toks, p + 1, ")")?;
                    let mut items: Vec<Expr> = Vec::new();
                    items.push(first);
                    let mut rest = rest;
                    items.append(&mut rest);
                    Ok((Expr::TupleLiteral(items), q))
                } else {
                    let q = expect_sym(toks, p, ")")?;
                    Ok((first, q))
                }
            } else if sym(toks, pos, "[") {
                let (items, q) = parse_expr_list(toks, pos + 1, "]")?;
                Ok((Expr::ArrayLiteral(items), q))
            } else {
                Err(error_at(toks, pos, "an expression"))
            }
        },
    }
}

/// The assignment target an expression denotes: a variable, or a member or
/// an element of a target.
pub open spec fn target_of(e: Expr) -> Option<AssignmentTarget>
    decreases e,
{
    match e {
        Expr::Identifier(name) => Some(AssignmentTarget::Var(name)),
        Expr::MemberAccess { object, member } => match target_of(*object) {
            Some(t) => Some(AssignmentTarget::Member { object: Box::new(t), member }),
            None => None,
        },
        Expr::IndexAccess { object, index } => match target_of(*object) {
            Some(t) => Some(AssignmentTarget::Index { object: Box::new(t), index: *index }),
            None => None,
        },
        _ => None,
    }
}

fn to_target(e: Expr) -> (r: Option<AssignmentTarget>)
    ensures
        r == target_of(e),
    decreases e,
{
    match e {
        Expr::Identifier(name) => Some(AssignmentTarget::Var(name)),
        Expr::MemberAccess { object, member } => match to_target(*object) {
            Some(t) => Some(AssignmentTarget::Member { object: Box::new(t), member }),
            None => None,
        },
        Expr::IndexAccess { object, index } => match to_target(*object) {
            Some(t) => Some(AssignmentTarget::Index { object: Box::new(t), index: *index }),
            None => None,
        },
        _ => None,
    }
}

/// Distinct keywords and symbols are different texts.
proof fn lemma_keywords_differ()
    ensures
        "Stop"@ != "Use"@,
        "Stop"@ != "Using"@,
        "Stop"@ != "Open"@,
        "Stop"@ != "Closed"@,
        "Stop"@ != "Showcase"@,
        "Stop"@ != "Data"@,
        "Stop"@ != "Nunction"@,
        "Stop"@ != "function"@,
        "Stop"@ != "Number"@,
        "Stop"@ != "Int"@,
        "Stop"@ != "Float"@,
        "Stop"@ != "Generic"@,
        "Stop"@ != "Weld"@,
        "Stop"@ != "Bool"@,
        "Stop"@ != "Ore"@,
        "Stop"@ != "Materials"@,
        "Stop"@ != "Print"@,
        "Stop"@ != "Return"@,
        "Skip"@ != "Use"@,
        "Skip"@ != "Using"@,
        "Skip"@ != "Open"@,
        "Skip"@ != "Closed"@,
        "Skip"@ != "Showcase"@,
        "Skip"@ != "Data"@,
        "Skip"@ != "Nunction"@,
        "Skip"@ != "function"@,
        "Skip"@ != "Number"@,
        "Skip"@ != "Int"@,
        "Skip"@ != "Float"@,
        "Skip"@ != "Generic"@,
        "Skip"@ != "Weld"@,
        "Skip"@ != "Bool"@,
        "Skip"@ != "Ore"@,
        "Skip"@ != "Materials"@,
        "Skip"@ != "Print"@,
        "Skip"@ != "Return"@,
        "Skip"@ != "Stop"@,
        "Return"@ != "Use"@,
        "Return"@ != "Using"@,
        "Return"@ != "Open"@,
        "Return"@ != "Closed"@,
        "Return"@ != "Showcase"@,
        "Return"@ != "Data"@,
        "Return"@ != "Nunction"@,
        "Return"@ != "function"@,
        "Return"@ != "Number"@,
        "Return"@ != "Int"@,
        "Return"@ != "Float"@,
        "Return"@ != "Generic"@,
        "Return"@ != "Weld"@,
        "Return"@ != "Bool"@,
        "Return"@ != "Ore"@,
        "Return"@ != "Materials"@,
        "Return"@ != "Print"@,
        ")"@ != "."@,
        ")"@ != "["@,
        ")"@ != "("@,
        ")"@ != "**"@,
        ")"@ != "*"@,
        ")"@ != "/"@,
        ")"@ != "%"@,
        ")"@ != "+"@,
        ")"@ != "-"@,
        ")"@ != "=="@,
        ")"@ != "!="@,
        ")"@ != "<="@,
        ")"@ != ">="@,
        ")"@ != "<"@,
        ")"@ != ">"@,
        ";"@ != "("@,
        ";"@ != "="@,
        ";"@ != "."@,
        ";"@ != "["@,
        ";"@ != "**"@,
        ";"@ != "*"@,
        ";"@ != "/"@,
        ";"@ != "%"@,
        ";"@ != "+"@,
        ";"@ != "-"@,
        ";"@ != "=="@,
        ";"@ != "!="@,
        ";"@ != "<="@,
        ";"@ != ">="@,
        ";"@ != "<"@,
        ";"@ != ">"@,
{
    reveal_strlit("!=");
    reveal_strlit("%");
    reveal_strlit("(");
    reveal_strlit(")");
    reveal_strlit("*");
    reveal_strlit("**");
    reveal_strlit("+");
    reveal_strlit("-");
    reveal_strlit(".");
    reveal_strlit("/");
    reveal_strlit(";");
    reveal_strlit("<");
    reveal_strlit("<=");
    reveal_strlit("=");
    reveal_strlit("==");
    reveal_strlit(">");
    reveal_strlit(">=");
    reveal_strlit("Bool");
    reveal_strlit("Closed");
    reveal_strlit("Data");
    reveal_strlit("Float");
    reveal_strlit("Generic");
    reveal_strlit("Int");
    reveal_strlit("Materials");
    reveal_strlit("Number");
    reveal_strlit("Nunction");
    reveal_strlit("Open");
    reveal_strlit("Ore");
    reveal_strlit("Print");
    reveal_strlit("Return");
    reveal_strlit("Showcase");
    reveal_strlit("Skip");
    reveal_strlit("Stop");
    reveal_strlit("Use");
    reveal_strlit("Using");
    reveal_strlit("Weld");
    reveal_strlit("[");
    reveal_strlit("function");
    assert("Stop"@.len() != "Use"@.len());
    assert("Stop"@.len() != "Using"@.len());
    assert("Stop"@[0] != "Open"@[0]);
    assert("Stop"@.len() != "Closed"@.len());
    assert("Stop"@.len() != "Showcase"@.len());
    assert("Stop"@[0] != "Data"@[0]);
    assert("Stop"@.len() != "Nunction"@.len());
    assert("Stop"@.len() != "function"@.len());
    assert("Stop"@.len() != "Number"@.len());
    assert("Stop"@.len() != "Int"@.len());
    assert("Stop"@.len() != "Float"@.len());
    assert("Stop"@.len() != "Generic"@.len());
    assert("Stop"@[0] != "Weld"@[0]);
    assert("Stop"@[0] != "Bool"@[0]);
    assert("Stop"@.len() != "Ore"@.len());
    assert("Stop"@.len() != "Materials"@.len());
    assert("Stop"@.len() != "Print"@.len());
    assert("Stop"@.len() != "Return"@.len());
    assert("Skip"@.len() != "Use"@.len());
    assert("Skip"@.len() != "Using"@.len());
    assert("Skip"@[0] != "Open"@[0]);
    assert("Skip"@.len() != "Closed"@.len());
    assert("Skip"@.len() != "Showcase"@.len());
    assert("Skip"@[0] != "Data"@[0]);
    assert("Skip"@.len() != "Nunction"@.len());
    assert("Skip"@.len() != "function"@.len());
    assert("Skip"@.len() != "Number"@.len());
    assert("Skip"@.len() != "Int"@.len());
    assert("Skip"@.len() != "Float"@.len());
    assert("Skip"@.len() != "Generic"@.len());
    assert("Skip"@[0] != "Weld"@[0]);
    assert("Skip"@[0] != "Bool"@[0]);
    assert("Skip"@.len() != "Ore"@.len());
    assert("Skip"@.len() != "Materials"@.len());
    assert("Skip"@.len() != "Print"@.len());
    assert("Skip"@.len() != "Return"@.len());
    assert("Skip"@[1] != "Stop"@[1]);
    assert("Return"@.len() != "Use"@.len());
    assert("Return"@.len() != "Using"@.len());
    assert("Return"@.len() != "Open"@.len());
    assert("Return"@[0] != "Closed"@[0]);
    assert("Return"@.len() != "Showcase"@.len());
    assert("Return"@.len() != "Data"@.len());
    assert("Return"@.len() != "Nunction"@.len());
    assert("Return"@.len() != "function"@.len());
    assert("Return"@[0] != "Number"@[0]);
    assert("Return"@.len() != "Int"@.len());
    assert("Return"@.len() != "Float"@.len());
    assert("Return"@.len() != "Generic"@.len());
    assert("Return"@.len() != "Weld"@.len());
    assert("Return"@.len() != "Bool"@.len());
    assert("Return"@.len() != "Ore"@.len());
    assert("Return"@.len() != "Materials"@.len());
    assert("Return"@.len() != "Print"@.len());
    assert(")"@[0] != "."@[0]);
    assert(")"@[0] != "["@[0]);
    assert(")"@[0] != "("@[0]);
    assert(")"@.len() != "**"@.len());
    assert(")"@[0] != "*"@[0]);
    assert(")"@[0] != "/"@[0]);
    assert(")"@[0] != "%"@[0]);
    assert(")"@[0] != "+"@[0]);
    assert(")"@[0] != "-"@[0]);
    assert(")"@.len() != "=="@.len());
    assert(")"@.len() != "!="@.len());
    assert(")"@.len() != "<="@.len());
    assert(")"@.len() != ">="@.len());
    assert(")"@[0] != "<"@[0]);
    assert(")"@[0] != ">"@[0]);
    assert(";"@[0] != "("@[0]);
    assert(";"@[0] != "="@[0]);
    assert(";"@[0] != "."@[0]);
    assert(";"@[0] != "["@[0]);
    assert(";"@.len() != "**"@.len());
    assert(";"@[0] != "*"@[0]);
    assert(";"@[0] != "/"@[0]);
    assert(";"@[0] != "%"@[0]);
    assert(";"@[0] != "+"@[0]);
    assert(";"@[0] != "-"@[0]);
    assert(";"@.len() != "=="@.len());
    assert(";"@.len() != "!="@.len());
    assert(";"@.len() != "<="@.len());
    assert(";"@.len() != ">="@.len());
    assert(";"@[0] != "<"@[0]);
    assert(";"@[0] != ">"@[0]);
}

/// Parses `{ statement* }`.
fn parse_block(toks: &Vec<Token>, pos: usize) -> (r: Result<(Vec<Statement>, usize), ForgeError>)
    requires
        at_token(toks, pos as int),
    ensures
        advanced(r, toks@, pos as int),
        r matches Ok((body, _)) ==> stmts_shaped(body@),
        is_sym(toks@[pos as int], "{"@) && is_sym(toks@[pos + 1], "}"@) ==> (r matches Ok((body, q)) && body@.len()
            == 0 && q == pos + 2),
    decreases toks@.len() - pos, 0int,
{
    let mut p = expect_sym(toks, pos, "{")?;
    let mut body: Vec<Statement> = Vec::new();
    while !sym(toks, p, "}")
        invariant
            at_token(toks, p as int),
            pos < p,
            stmts_shaped(body@),
            is_sym(toks@[pos as int], "{"@) && is_sym(toks@[pos + 1], "}"@) ==> p == pos + 1 && body@.len() == 0,
        decreases toks@.len() - p,
    {
        if toks[p].kind == TokenKind::End {
            return Err(error_at(toks, p, "'}'"));
        }
        let (st, q) = parse_statement(toks, p)?;
        let ghost prev = body@;
        body.push(st);
        proof {
            assert(body@.subrange(0, body@.len() - 1) =~= prev);
        }
        p = q;
    }
    proof {
        lemma_next(toks, p as int);
    }
    Ok((body, p + 1))
}

/// Parses `(Type Name, ...)` up to and including the closing parenthesis.
fn parse_params(toks: &Vec<Token>, pos: usize) -> (r: Result<(Vec<Param>, usize), ForgeError>)
    requires
        at_token(toks, pos as int),
    ensures
        advanced(r, toks@, pos as int),
        match r {
            Ok((ps, e)) => params_end(toks@, pos as int) == Some(e as int),
            Err(_) => params_end(toks@, pos as int) is None,
        },
        is_sym(toks@[pos as int], "("@) && is_sym(toks@[pos + 1], ")"@) ==> (r matches Ok((ps, _)) && ps@.len()
            == 0),
{
    let mut p = expect_sym(toks, pos, "(")?;
    let mut params: Vec<Param> = Vec::new();
    if sym(toks, p, ")") {
        proof {
            lemma_next(toks, p as int);
        }
        return Ok((params, p + 1));
    }
    loop
        invariant
            at_token(toks, p as int),
            pos < p,
            params_end(toks@, pos as int) == params_list_end(toks@, p as int),
        decreases toks@.len() - p,
    {
        let (type_decl, q) = parse_type_decl(toks, p)?;
        let (name, q2) = expect_ident(toks, q)?;
        params.push(Param { type_decl, name });
        if sym(toks, q2, ",") {
            proof {
                lemma_next(toks, q2 as int);
            }
            p = q2 + 1;
        } else {
            let e = expect_sym(toks, q2, ")")?;
            return Ok((params, e));
        }
    }
}

/// Parses a function declaration whose return kind starts at `pos`.
fn parse_function_decl(toks: &Vec<Token>, pos: usize, modifier: Option<Modifier>) -> (r: Result<
    (FunctionDecl, usize),
    ForgeError,
>)
    requires
        at_token(toks, pos as int),
    ensures
        advanced(r, toks@, pos as int),
        r matches Ok((f, _)) ==> f.modifier == modifier,
        simple_function(toks@, pos as int) ==> (r matches Ok((f, e)) && e == type_end(toks@, pos as int)->Some_0
            + 5 && f.name@ == toks@[type_end(toks@, pos as int)->Some_0].text@ && f.params@.len() == 0
            && f.body@.len() == 0),
        r matches Ok((f, _)) ==> stmts_shaped(f.body@),
    decreases toks@.len() - pos, 1int,
{
    let (ret_kind, p) = if word(toks, pos, "Nunction") {
        proof {
            lemma_next(toks, pos as int);
        }
        (RetKind::Nunction, pos + 1)
    } else if word(toks, pos, "function") {
        proof {
            lemma_next(toks, pos as int);
        }
        (RetKind::Function, pos + 1)
    } else {
        let (t, p) = parse_type_decl(toks, pos)?;
        (RetKind::from_type_decl(&t), p)
    };
    let (name, q) = expect_ident(toks, p)?;
    let (params, q2) = parse_params(toks, q)?;
    let (body, q3) = parse_block(toks, q2)?;
    Ok((FunctionDecl { modifier, ret_kind, name, params, body }, q3))
}

/// Parses `Data Name { member* }` from the `Data` keyword.
fn parse_data_decl(toks: &Vec<Token>, pos: usize, modifier: Option<Modifier>) -> (r: Result<
    (DataDecl, usize),
    ForgeError,
>)
    requires
        at_token(toks, pos as int),
    ensures
        advanced(r, toks@, pos as int),
        match r {
            Ok((d, e)) => data_end(toks@, pos as int) == Some(e as int) && d.name@ == toks@[pos + 1].text@
                && d.modifier == modifier,
            Err(_) => data_end(toks@, pos as int) is None,
        },
{
    if !word(toks, pos, "Data") {
        return Err(error_at(toks, pos, "'Data'"));
    }
    proof {
        lemma_next(toks, pos as int);
    }
    let (name, p) = expect_ident(toks, pos + 1)?;
    let mut p = expect_sym(toks, p, "{")?;
    let mut members: Vec<VarDecl> = Vec::new();
    while !sym(toks, p, "}")
        invariant
            at_token(toks, p as int),
            pos < p,
            data_end(toks@, pos as int) == members_end(toks@, p as int),
            name@ == toks@[pos + 1].text@,
        decreases toks@.len() - p,
    {
        let m = modifier_of(toks, p);
        let mut q = p;
        if m.is_some() {
            proof {
                lemma_next(toks, p as int);
            }
            q = p + 1;
        }
        let (type_decl, q2) = parse_type_decl(toks, q)?;
        let (member_name, q3) = expect_ident(toks, q2)?;
        let q4 = expect_sym(toks, q3, ";")?;
        members.push(VarDecl { modifier: m, type_decl, name: member_name, initializer: None });
        p = q4;
    }
    proof {
        lemma_next(toks, p as int);
    }
    Ok((DataDecl { modifier, name, members }, p + 1))
}

/// Parses `Type Name { path = value; ... }`.
fn parse_object_decl(toks: &Vec<Token>, pos: usize) -> (r: Result<(ObjectDecl, usize), ForgeError>)
    requires
        at_token(toks, pos as int),
    ensures
        advanced(r, toks@, pos as int),
        r matches Ok((o, _)) ==> o.data_type@ == toks@[pos as int].text@ && o.name@ == toks@[pos + 1].text@,
        !(toks@[pos as int].kind == TokenKind::Word && toks@[pos + 1].kind == TokenKind::Word && is_sym(
            toks@[pos + 2],
            "{"@,
        )) ==> r is Err,
        empty_object(toks@, pos as int) ==> (r matches Ok((o, q)) && o.inits@.len() == 0 && q == pos + 4),
{
    let (data_type, p) = expect_ident(toks, pos)?;
    let (name, p) = expect_ident(toks, p)?;
    let mut p = expect_sym(toks, p, "{")?;
    let mut inits: Vec<(Vec<String>, Expr)> = Vec::new();
    while !sym(toks, p, "}")
        invariant
            at_token(toks, p as int),
            pos < p,
            data_type@ == toks@[pos as int].text@,
            name@ == toks@[pos + 1].text@,
            empty_object(toks@, pos as int) ==> p == pos + 3 && inits@.len() == 0,
        decreases toks@.len() - p,
    {
        let (first, mut q) = expect_ident(toks, p)?;
        let mut path: Vec<String> = Vec::new();
        path.push(first);
        while sym(toks, q, ".")
            invariant
                at_token(toks, q as int),
                p < q,
                !empty_object(toks@, pos as int),
            decreases toks@.len() - q,
        {
            proof {
                lemma_next(toks, q as int);
            }
            let (seg, q2) = expect_ident(toks, q + 1)?;
            path.push(seg);
            q = q2;
        }
        let q = expect_sym(toks, q, "=")?;
        let (value, q) = parse_expr(toks, q)?;
        let q = expect_sym(toks, q, ";")?;
        inits.push((path, value));
        p = q;
    }
    proof {
        lemma_next(toks, p as int);
    }
    Ok((ObjectDecl { data_type, name, inits }, p + 1))
}

/// Parses a dotted module path `A.B.C`.
fn parse_path(toks: &Vec<Token>, pos: usize) -> (r: Result<(Vec<String>, usize), ForgeError>)
    requires
        at_token(toks, pos as int),
    ensures
        advanced(r, toks@, pos as int),
        r is Ok <==> toks@[pos as int].kind == TokenKind::Word && path_end(toks@, pos + 1) is Some,
        r matches Ok((path, p)) ==> path_end(toks@, pos + 1) == Some(p as int)
            && crate::imports::path_view(path@) == seq![toks@[pos as int].text@] + path_words(toks@, pos + 1),
{
    let (first, mut p) = expect_ident(toks, pos)?;
    let mut path: Vec<String> = Vec::new();
    path.push(first);
    proof {
        assert(crate::imports::path_view(path@) =~= seq![toks@[pos as int].text@]);
        assert(seq![toks@[pos as int].text@] + path_words(toks@, pos + 1) =~= crate::imports::path_view(path@)
            + path_words(toks@, p as int));
    }
    while sym(toks, p, ".")
        invariant
            at_token(toks, p as int),
            pos < p,
            toks@[pos as int].kind == TokenKind::Word,
            path_end(toks@, pos + 1) == path_end(toks@, p as int),
            seq![toks@[pos as int].text@] + path_words(toks@, pos + 1) == crate::imports::path_view(path@)
                + path_words(toks@, p as int),
        decreases toks@.len() - p,
    {
        proof {
            lemma_next(toks, p as int);
        }
        let (seg, q) = expect_ident(toks, p + 1)?;
        let ghost before = crate::imports::path_view(path@);
        path.push(seg);
        proof {
            assert(crate::imports::path_view(path@) =~= before.push(seg@));
            assert(path_words(toks@, p as int) == seq![seg@] + path_words(toks@, q as int));
            assert(before + (seq![seg@] + path_words(toks@, q as int)) =~= before.push(seg@) + path_words(
                toks@,
                q as int,
            ));
        }
        p = q;
    }
    proof {
        assert(path_words(toks@, p as int) =~= seq![]);
        assert(crate::imports::path_view(path@) + seq![] =~= crate::imports::path_view(path@));
    }
    Ok((path, p))
}

/// Whether `Type name () { }` starts at `pos`.
pub open spec fn simple_function(t: Seq<Token>, pos: int) -> bool {
    &&& !is_word(t[pos], "Nunction"@)
    &&& !is_word(t[pos], "function"@)
    &&& type_end(t, pos) is Some
    &&& {
        let q = type_end(t, pos)->Some_0;
        &&& t[q].kind == TokenKind::Word
        &&& is_sym(t[q + 1], "("@)
        &&& is_sym(t[q + 2], ")"@)
        &&& is_sym(t[q + 3], "{"@)
        &&& is_sym(t[q + 4], "}"@)
    }
}

/// Whether `For (Type name; atom; name2++) { }` starts at `pos`.
pub open spec fn simple_for(t: Seq<Token>, pos: int) -> bool {
    &&& is_word(t[pos], "For"@)
    &&& is_sym(t[pos + 1], "("@)
    &&& type_end(t, pos + 2) is Some
    &&& {
        let q = type_end(t, pos + 2)->Some_0;
        &&& t[q].kind == TokenKind::Word
        &&& is_sym(t[q + 1], ";"@)
        &&& atom(t, q + 2)
        &&& is_sym(t[q + 3], ";"@)
        &&& t[q + 4].kind == TokenKind::Word
        &&& is_sym(t[q + 5], "++"@)
        &&& is_sym(t[q + 6], ")"@)
        &&& is_sym(t[q + 7], "{"@)
        &&& is_sym(t[q + 8], "}"@)
    }
}

/// Whether `Type name;` starts at `pos`.
pub open spec fn simple_var(t: Seq<Token>, pos: int) -> bool {
    &&& type_end(t, pos) is Some
    &&& {
        let q = type_end(t, pos)->Some_0;
        &&& t[q].kind == TokenKind::Word
        &&& is_sym(t[q + 1], ";"@)
    }
}

/// Whether `If (atom) { }` with no `Else` after it starts at `pos`.
pub open spec fn simple_if(t: Seq<Token>, pos: int) -> bool {
    &&& is_word(t[pos], "If"@)
    &&& is_sym(t[pos + 1], "("@)
    &&& atom(t, pos + 2)
    &&& is_sym(t[pos + 3], ")"@)
    &&& is_sym(t[pos + 4], "{"@)
    &&& is_sym(t[pos + 5], "}"@)
    &&& !is_word(t[pos + 6], "Else"@)
}

/// Parses `If (c) {..} Else If (c) {..} Else {..}` from the `If` keyword.
fn parse_if(toks: &Vec<Token>, pos: usize) -> (r: Result<(IfNode, usize), ForgeError>)
    requires
        at_token(toks, pos as int),
    ensures
        advanced(r, toks@, pos as int),
        r matches Ok((node, _)) ==> node.branches@.len() > 0 && branches_shaped(node.branches@)
            && else_shaped(node.else_body),
        simple_if(toks@, pos as int) ==> (r matches Ok((node, e)) && e == pos + 6 && node.branches@.len() == 1
            && atom_result(toks@, pos + 2, node.branches@[0].0) && node.branches@[0].1@.len() == 0
            && node.else_body is None),
    decreases toks@.len() - pos, 1int,
{
    proof {
        lemma_keywords_differ();
        if simple_if(toks@, pos as int) {
            assert(stopper(toks@[pos + 3]));
            assert(lone_atom(toks@, pos + 2));
        }
    }
    if !word(toks, pos, "If") {
        return Err(error_at(toks, pos, "'If'"));
    }
    proof {
        lemma_next(toks, pos as int);
    }
    let p = expect_sym(toks, pos + 1, "(")?;
    let (cond, p) = parse_expr(toks, p)?;
    let p = expect_sym(toks, p, ")")?;
    let (body, mut p) = parse_block(toks, p)?;
    let mut branches: Vec<(Expr, Vec<Statement>)> = Vec::new();
    branches.push((cond, body));
    proof {
        lemma_branches_shaped(branches@);
    }
    let else_body: Option<Vec<Statement>> = None;
    while word(toks, p, "Else")
        invariant
            at_token(toks, p as int),
            pos < p,
            branches@.len() > 0,
            branches_shaped(branches@),
            else_body is None,
            simple_if(toks@, pos as int) ==> p == pos + 6 && branches@.len() == 1 && atom_result(
                toks@,
                pos + 2,
                branches@[0].0,
            ) && branches@[0].1@.len() == 0,
        decreases toks@.len() - p,
    {
        proof {
            lemma_next(toks, p as int);
        }
        if word(toks, p + 1, "If") {
            proof {
                lemma_next(toks, p + 1);
            }
            let q = expect_sym(toks, p + 2, "(")?;
            let (c, q) = parse_expr(toks, q)?;
            let q = expect_sym(toks, q, ")")?;
            let (b, q) = parse_block(toks, q)?;
            let ghost prev = branches@;
            branches.push((c, b));
            proof {
                assert(branches@.subrange(0, branches@.len() - 1) =~= prev);
            }
            p = q;
        } else {
            let (b, q) = parse_block(toks, p + 1)?;
            return Ok((IfNode { branches, else_body: Some(b) }, q));
        }
    }
    Ok((IfNode { branches, else_body }, p))
}

/// Parses `For (Type i = e; cond; i++) {..}` from the `For` keyword.
fn parse_for(toks: &Vec<Token>, pos: usize) -> (r: Result<(ForNode, usize), ForgeError>)
    requires
        at_token(toks, pos as int),
    ensures
        advanced(r, toks@, pos as int),
        r matches Ok((node, _)) ==> stmts_shaped(node.body@),
        !is_word(toks@[pos as int], "For"@) ==> r is Err,
        simple_for(toks@, pos as int) ==> (r matches Ok((node, e)) && e == type_end(toks@, pos + 2)->Some_0 + 9
            && node.init.name@ == toks@[type_end(toks@, pos + 2)->Some_0].text@ && node.init.initializer is None
            && atom_result(toks@, type_end(toks@, pos + 2)->Some_0 + 2, node.condition) && node.increment_var@
            == toks@[type_end(toks@, pos + 2)->Some_0 + 4].text@ && node.increment_op == IncrOp::Inc
            && node.body@.len() == 0),
    decreases toks@.len() - pos, 1int,
{
    proof {
        lemma_keywords_differ();
        if simple_for(toks@, pos as int) {
            let q = type_end(toks@, pos + 2)->Some_0;
            assert(stopper(toks@[q + 3]));
            assert(lone_atom(toks@, q + 2));
        }
    }
    if !word(toks, pos, "For") {
        return Err(error_at(toks, pos, "'For'"));
    }
    proof {
        lemma_next(toks, pos as int);
    }
    let p = expect_sym(toks, pos + 1, "(")?;
    let (type_decl, p) = parse_type_decl(toks, p)?;
    let (name, p) = expect_ident(toks, p)?;
    let (initializer, p) = if sym(toks, p, "=") {
        proof {
            lemma_next(toks, p as int);
        }
        let (e, q) = parse_expr(toks, p + 1)?;
        (Some(e), q)
    } else {
        (None, p)
    };
    let p = expect_sym(toks, p, ";")?;
    let (condition, p) = parse_expr(toks, p)?;
    let p = expect_sym(toks, p, ";")?;
    let (increment_var, p) = expect_ident(toks, p)?;
    let increment_op = if sym(toks, p, "++") {
        IncrOp::Inc
    } else if sym(toks, p, "--") {
        IncrOp::Dec
    } else {
        return Err(error_at(toks, p, "'++' or '--'"));
    };
    proof {
        lemma_next(toks, p as int);
    }
    let p = expect_sym(toks, p + 1, ")")?;
    let (body, p) = parse_block(toks, p)?;
    let init = VarDecl { modifier: None, type_decl, name, initializer };
    Ok((ForNode { init, condition, increment_var, increment_op, body }, p))
}

/// Parses a declaration that starts with a type (a variable or a function).
fn parse_typed_decl(toks: &Vec<Token>, pos: usize, modifier: Option<Modifier>) -> (r: Result<
    (Statement, usize),
    ForgeError,
>)
    requires
        at_token(toks, pos as int),
    ensures
        advanced(r, toks@, pos as int),
        r matches Ok((s, _)) ==> stmt_shaped(s),
        simple_var(toks@, pos as int) ==> (r matches Ok((st, e)) && e == type_end(toks@, pos as int)->Some_0
            + 2 && (st matches Statement::VarDecl(d) && d.name@ == toks@[type_end(
            toks@,
            pos as int,
        )->Some_0].text@ && d.initializer is None && d.modifier == modifier)),
    decreases toks@.len() - pos, 1int,
{
    proof {
        lemma_keywords_differ();
    }
    let (type_decl, p) = parse_type_decl(toks, pos)?;
    let (name, p) = expect_ident(toks, p)?;
    if sym(toks, p, "(") {
        let (params, q) = parse_params(toks, p)?;
        let (body, q) = parse_block(toks, q)?;
        let ret_kind = RetKind::from_type_decl(&type_decl);
        return Ok((Statement::FunctionDecl(FunctionDecl { modifier, ret_kind, name, params, body }), q));
    }
    let (initializer, p) = if sym(toks, p, "=") {
        proof {
            lemma_next(toks, p as int);
        }
        let (e, q) = parse_expr(toks, p + 1)?;
        (Some(e), q)
    } else {
        (None, p)
    };
    let p = expect_sym(toks, p, ";")?;
    Ok((Statement::VarDecl(VarDecl { modifier, type_decl, name, initializer }), p))
}

/// Parses one statement.
fn parse_statement(toks: &Vec<Token>, pos: usize) -> (r: Result<(Statement, usize), ForgeError>)
    requires
        at_token(toks, pos as int),
    ensures
        advanced(r, toks@, pos as int),
        r matches Ok((s, _)) ==> stmt_shaped(s),
        is_word(toks@[pos as int], "Stop"@) && is_sym(toks@[pos + 1], ";"@) ==> (r matches Ok((st, q))
            && st is Stop && q == pos + 2),
        is_word(toks@[pos as int], "Skip"@) && is_sym(toks@[pos + 1], ";"@) ==> (r matches Ok((st, q))
            && st is Skip && q == pos + 2),
        is_word(toks@[pos as int], "Return"@) && is_sym(toks@[pos + 1], ";"@) ==> (r matches Ok((st, q))
            && st == Statement::Return(None) && q == pos + 2),
    decreases toks@.len() - pos, 2int,
{
    proof {
        lemma_keywords_differ();
    }
    let t = &toks[pos];
    if t.kind == TokenKind::End {
        return Err(error_at(toks, pos, "a statement"));
    }
    proof {
        lemma_next(toks, pos as int);
    }
    if word(toks, pos, "Use") {
        let (path, p) = parse_path(toks, pos + 1)?;
        let p = expect_sym(toks, p, ";")?;
        return Ok((Statement::Use(UseNode { path, line: t.line, column: t.col }), p));
    }
    if word(toks, pos, "Using") {
        let (path, p) = parse_path(toks, pos + 1)?;
        let p = expect_sym(toks, p, ":")?;
        let (symbol, p) = expect_ident(toks, p)?;
        let p = expect_sym(toks, p, ";")?;
        return Ok((Statement::Using(UsingNode { path, symbol, line: t.line, column: t.col }), p));
    }
    let modifier = modifier_of(toks, pos);
    let start = if modifier.is_some() {
        pos + 1
    } else {
        pos
    };
    if word(toks, start, "Data") {
        let (d, p) = parse_data_decl(toks, start, modifier)?;
        return Ok((Statement::DataDecl(d), p));
    }
    if word(toks, start, "Nunction") || word(toks, start, "function") {
        let (f, p) = parse_function_decl(toks, start, modifier)?;
        return Ok((Statement::FunctionDecl(f), p));
    }
    if starts_type(toks, start) {
        return parse_typed_decl(toks, start, modifier);
    }
    if modifier.is_some() {
        return Err(error_at(toks, start, "a declaration"));
    }
    if word(toks, pos, "Print") {
        let p = expect_sym(toks, pos + 1, "(")?;
        let (expr, p) = parse_expr(toks, p)?;
        let p = expect_sym(toks, p, ")")?;
        let p = expect_sym(toks, p, ";")?;
        return Ok((Statement::Print(PrintNode { expr }), p));
    }
    if word(toks, pos, "Return") {
        if sym(toks, pos + 1, ";") {
            proof {
                lemma_next(toks, pos + 1);
            }
            return Ok((Statement::Return(None), pos + 2));
        }
        let (e, p) = parse_expr(toks, pos + 1)?;
        let p = expect_sym(toks, p, ";")?;
        return Ok((Statement::Return(Some(e)), p));
    }
    if word(toks, pos, "Stop") {
        let p = expect_sym(toks, pos + 1, ";")?;
        return Ok((Statement::Stop, p));
    }
    if word(toks, pos, "Skip") {
        let p = expect_sym(toks, pos + 1, ";")?;
        return Ok((Statement::Skip, p));
    }
    if word(toks, pos, "If") {
        let (node, p) = parse_if(toks, pos)?;
        return Ok((Statement::If(node), p));
    }
    if word(toks, pos, "While") {
        let p = expect_sym(toks, pos + 1, "(")?;
        let (condition, p) = parse_expr(toks, p)?;
        let p = expect_sym(toks, p, ")")?;
        let (body, p) = parse_block(toks, p)?;
        return Ok((Statement::While(WhileNode { condition, body }), p));
    }
    if word(toks, pos, "For") {
        let (node, p) = parse_for(toks, pos)?;
        return Ok((Statement::For(node), p));
    }
    if word(toks, pos, "Input") && sym(toks, pos + 1, "(") {
        proof {
            lemma_next(toks, pos + 1);
        }
        let p = pos + 2;
        let (subtype, p) = match subtype_of(toks, p) {
            Some(st) => {
                proof {
                    lemma_next(toks, p as int);
                }
                (Some(st), p + 1)
            },
            None => (None, p),
        };
        let p = expect_sym(toks, p, ")")?;
        let p = expect_sym(toks, p, ";")?;
        return Ok((Statement::Input(InputNode { subtype }), p));
    }
    if t.kind == TokenKind::Word && toks[pos + 1].kind == TokenKind::Word {
        proof {
            lemma_next(toks, pos + 1);
        }
        if sym(toks, pos + 2, "{") {
            let (o, p) = parse_object_decl(toks, pos)?;
            return Ok((Statement::ObjectDecl(o), p));
        }
    }
    let (e, p) = parse_expr(toks, pos)?;
    if sym(toks, p, "=") {
        proof {
            lemma_next(toks, p as int);
        }
        let target = match to_target(e) {
            Some(t) => t,
            None => {
                return Err(error_at(toks, p, "';' (the left side cannot be assigned)"));
            },
        };
        let (value, q) = parse_expr(toks, p + 1)?;
        let q = expect_sym(toks, q, ";")?;
        return Ok((Statement::Assignment(AssignmentNode { target, value }), q));
    }
    let p = expect_sym(toks, p, ";")?;
    Ok((Statement::ExprStmt(e), p))
}

/// The statement a keyword followed by `;` denotes on its own: `Stop;`,
/// `Skip;` or a bare `Return;`.
pub open spec fn keyword_statement(t: TokView) -> Option<Statement> {
    if t.kind != TokenKind::Word {
        None
    } else if t.text == "Stop"@ {
        Some(Statement::Stop)
    } else if t.text == "Skip"@ {
        Some(Statement::Skip)
    } else if t.text == "Return"@ {
        Some(Statement::Return(None))
    } else {
        None
    }
}

/// The statements that tokens from `p` on denote when they are a run of
/// `Stop;`, `Skip;` and `Return;` up to the end of the source.
pub open spec fn keyword_run(ts: Seq<TokView>, p: int) -> Option<Seq<Statement>>
    decreases ts.len() - p,
{
    if p < 0 || p >= ts.len() {
        None
    } else if ts[p].kind == TokenKind::End {
        Some(seq![])
    } else if p + 1 < ts.len() && ts[p + 1].kind == TokenKind::Symbol && ts[p + 1].text == ";"@
        && keyword_statement(ts[p]) is Some && keyword_run(ts, p + 2) is Some {
        Some(seq![keyword_statement(ts[p])->0] + keyword_run(ts, p + 2)->0)
    } else {
        None
    }
}

/// What a parse of `source` is known to give: the source lexes, every `If`
/// has a condition, each statement takes at least one token, and there are
/// statements exactly when a token comes before the end.
pub open spec fn parsed_from(source: Seq<char>, program: Program) -> bool {
    &&& stmts_shaped(program.statements@)
    &&& lex(source) matches Ok(ts) && ts.len() > 0 && (program.statements@.len() == 0 <==> ts[0].kind
        == TokenKind::End) && program.statements@.len() < ts.len()
}

/// Parses a whole source file. Lexical diagnostics are those of `lex`; every
/// `If` it yields has a condition. Each statement takes at least one token,
/// and a source with a token before its end yields at least one statement.
/// A source without tokens is the empty program, and a run of `Stop;`,
/// `Skip;` and `Return;` is the program of those statements in order.
pub fn parse_program(source: &str) -> (r: Result<Program, ForgeError>)
    ensures
        r matches Ok(program) ==> parsed_from(source@, program),
        lex(source@) matches Err(e) ==> (r matches Err(f) && error_view(f) == e),
        lex(source@) matches Ok(ts) && ts[0].kind == TokenKind::End ==> (r matches Ok(program)
            && program.statements@.len() == 0),
        lex(source@) matches Ok(ts) ==> (keyword_run(ts, 0) is Some ==> (r matches Ok(program)
            && program.statements@ == keyword_run(ts, 0)->0)),
{
    let toks = match tokenize(source) {
        Ok(toks) => toks,
        Err(e) => {
            return Err(e);
        },
    };
    let mut statements: Vec<Statement> = Vec::new();
    let mut p: usize = 0;
    proof {
        assert(tokens_view(toks@)[0] == token_view(toks@[0]));
    }
    while toks[p].kind != TokenKind::End
        invariant
            at_token(&toks, p as int),
            stmts_shaped(statements@),
            lex(source@) is Ok,
            lex(source@) == Ok::<Seq<TokView>, (Seq<char>, int, int)>(tokens_view(toks@)),
            tokens_view(toks@)[0] == token_view(toks@[0]),
            p > 0 ==> toks@[0].kind != TokenKind::End,
            statements@.len() <= p,
            statements@.len() == 0 <==> p == 0,
            keyword_run(tokens_view(toks@), 0) is Some ==> keyword_run(tokens_view(toks@), p as int) is Some
                && keyword_run(tokens_view(toks@), 0)->0 == statements@ + keyword_run(
                tokens_view(toks@),
                p as int,
            )->0,
        decreases toks@.len() - p,
    {
        let ghost tv = tokens_view(toks@);
        proof {
            if keyword_run(tv, 0) is Some {
                assert(tv[p as int] == token_view(toks@[p as int]));
                assert(tv[p + 1] == token_view(toks@[p + 1]));
                reveal_strlit("Stop");
                reveal_strlit("Skip");
                reveal_strlit("Return");
                reveal_strlit(";");
            }
        }
        let (st, q) = parse_statement(&toks, p)?;
        let ghost prev = statements@;
        let ghost p0 = p;
        statements.push(st);
        proof {
            assert(statements@.subrange(0, statements@.len() - 1) =~= prev);
            if keyword_run(tv, 0) is Some {
                assert(keyword_statement(tv[p0 as int]) == Some(st));
                assert(q == p0 + 2);
                assert(keyword_run(tv, p0 as int)->0 =~= seq![st] + keyword_run(tv, p0 + 2)->0);
                assert(statements@ + keyword_run(tv, q as int)->0 =~= prev + keyword_run(tv, p0 as int)->0);
            }
        }
        p = q;
    }
    proof {
        if keyword_run(tokens_view(toks@), 0) is Some {
            assert(tokens_view(toks@)[p as int] == token_view(toks@[p as int]));
            assert(statements@ + seq![] =~= statements@);
        }
    }
    Ok(Program { statements })
}

} // verus!
