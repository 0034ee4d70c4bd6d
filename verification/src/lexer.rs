//! Tokenizer for the IEEE 1364 subset accepted by the parser.
use vstd::prelude::*;
use crate::strutil::{chars_of, char_is_ws, is_ws, slice_chars, string_from_chars};
use crate::SourceFile;

verus! {

/// Token classes.
#[derive(Debug, Clone, Copy, PartialEq, Eq, Hash, Structural)]
pub enum TokenKind {
    Module,
    Endmodule,
    Input,
    Output,
    Inout,
    Wire,
    Reg,
    Logic,
    Integer,
    Signed,
    Assign,
    Always,
    Initial,
    Begin,
    End,
    If,
    Else,
    Case,
    Endcase,
    Default,
    For,
    Posedge,
    Negedge,
    Parameter,
    Localparam,
    Genvar,
    Generate,
    Endgenerate,
    Identifier,
    Number,
    LParen,
    RParen,
    LBracket,
    RBracket,
    LBrace,
    RBrace,
    Comma,
    Semicolon,
    Colon,
    Dot,
    Hash,
    At,
    Question,
    Eq,
    EqEq,
    Ne,
    Lt,
    Le,
    Gt,
    Ge,
    Shl,
    Shr,
    Ashr,
    Plus,
    Minus,
    Star,
    Slash,
    Percent,
    Amp,
    Pipe,
    Caret,
    Tilde,
    Bang,
    LogAnd,
    LogOr,
    Unknown,
    Eof,
}

/// A token: its class, its text and the character offset where it starts.
#[derive(Debug, Clone)]
pub struct Token {
    pub kind: TokenKind,
    pub lexeme: String,
    pub offset: usize,
}

/// A token list the parser can walk: non-empty, ending with the only `Eof`.
pub open spec fn tokens_wf(tokens: Seq<Token>) -> bool {
    &&& tokens.len() > 0
    &&& tokens.last().kind == TokenKind::Eof
    &&& forall|i: int| 0 <= i < tokens.len() - 1 ==> (#[trigger] tokens[i]).kind != TokenKind::Eof
}

/// Start of an identifier (`[A-Za-z_]`) or of a system name (`$`).
pub open spec fn is_ident_start(c: char) -> bool {
    ('a' <= c && c <= 'z') || ('A' <= c && c <= 'Z') || c == '_' || c == '$'
}

/// Identifier continuation character (`[A-Za-z0-9_$]`).
pub open spec fn is_ident_char(c: char) -> bool {
    is_ident_start(c) || ('0' <= c && c <= '9')
}

/// Character allowed in the digits of a based literal (`[0-9A-Za-z_?]`).
pub open spec fn is_based_digit(c: char) -> bool {
    is_ident_char(c) && c != '$' || c == '?'
}

/// Keyword class of an identifier spelling, if it is one.
pub open spec fn keyword_spec(w: Seq<char>) -> Option<TokenKind> {
    if w == seq!['m', 'o', 'd', 'u', 'l', 'e'] { Some(TokenKind::Module) }
    else if w == seq!['m', 'a', 'c', 'r', 'o', 'm', 'o', 'd', 'u', 'l', 'e'] { Some(TokenKind::Module) }
    else if w == seq!['e', 'n', 'd', 'm', 'o', 'd', 'u', 'l', 'e'] { Some(TokenKind::Endmodule) }
    else if w == seq!['i', 'n', 'p', 'u', 't'] { Some(TokenKind::Input) }
    else if w == seq!['o', 'u', 't', 'p', 'u', 't'] { Some(TokenKind::Output) }
    else if w == seq!['i', 'n', 'o', 'u', 't'] { Some(TokenKind::Inout) }
    else if w == seq!['w', 'i', 'r', 'e'] { Some(TokenKind::Wire) }
    else if w == seq!['r', 'e', 'g'] { Some(TokenKind::Reg) }
    else if w == seq!['l', 'o', 'g', 'i', 'c'] { Some(TokenKind::Logic) }
    else if w == seq!['i', 'n', 't', 'e', 'g', 'e', 'r'] { Some(TokenKind::Integer) }
    else if w == seq!['s', 'i', 'g', 'n', 'e', 'd'] { Some(TokenKind::Signed) }
    else if w == seq!['a', 's', 's', 'i', 'g', 'n'] { Some(TokenKind::Assign) }
    else if w == seq!['a', 'l', 'w', 'a', 'y', 's'] { Some(TokenKind::Always) }
    else if w == seq!['i', 'n', 'i', 't', 'i', 'a', 'l'] { Some(TokenKind::Initial) }
    else if w == seq!['b', 'e', 'g', 'i', 'n'] { Some(TokenKind::Begin) }
    else if w == seq!['e', 'n', 'd'] { Some(TokenKind::End) }
    else if w == seq!['i', 'f'] { Some(TokenKind::If) }
    else if w == seq!['e', 'l', 's', 'e'] { Some(TokenKind::Else) }
    else if w == seq!['c', 'a', 's', 'e'] { Some(TokenKind::Case) }
    else if w == seq!['e', 'n', 'd', 'c', 'a', 's', 'e'] { Some(TokenKind::Endcase) }
    else if w == seq!['d', 'e', 'f', 'a', 'u', 'l', 't'] { Some(TokenKind::Default) }
    else if w == seq!['f', 'o', 'r'] { Some(TokenKind::For) }
    else if w == seq!['p', 'o', 's', 'e', 'd', 'g', 'e'] { Some(TokenKind::Posedge) }
    else if w == seq!['n', 'e', 'g', 'e', 'd', 'g', 'e'] { Some(TokenKind::Negedge) }
    else if w == seq!['p', 'a', 'r', 'a', 'm', 'e', 't', 'e', 'r'] { Some(TokenKind::Parameter) }
    else if w == seq!['l', 'o', 'c', 'a', 'l', 'p', 'a', 'r', 'a', 'm'] { Some(TokenKind::Localparam) }
    else if w == seq!['g', 'e', 'n', 'v', 'a', 'r'] { Some(TokenKind::Genvar) }
    else if w == seq!['g', 'e', 'n', 'e', 'r', 'a', 't', 'e'] { Some(TokenKind::Generate) }
    else if w == seq!['e', 'n', 'd', 'g', 'e', 'n', 'e', 'r', 'a', 't', 'e'] { Some(TokenKind::Endgenerate) }
    else { None }
}

/// Class and length of the operator or punctuation at the start of `w` (longest match; any
/// other character is `Unknown`, length 1).
pub open spec fn punct_spec(w: Seq<char>) -> (TokenKind, nat) {
    let c0 = w[0];
    let c1 = if w.len() > 1 { w[1] } else { '\0' };
    let c2 = if w.len() > 2 { w[2] } else { '\0' };
    if c0 == '>' && c1 == '>' && c2 == '>' { (TokenKind::Ashr, 3) }
    else if c0 == '<' && c1 == '<' && c2 == '<' { (TokenKind::Shl, 3) }
    else if c0 == '=' && c1 == '=' && c2 == '=' { (TokenKind::EqEq, 3) }
    else if c0 == '!' && c1 == '=' && c2 == '=' { (TokenKind::Ne, 3) }
    else if c0 == '>' && c1 == '>' { (TokenKind::Shr, 2) }
    else if c0 == '<' && c1 == '<' { (TokenKind::Shl, 2) }
    else if c0 == '<' && c1 == '=' { (TokenKind::Le, 2) }
    else if c0 == '>' && c1 == '=' { (TokenKind::Ge, 2) }
    else if c0 == '=' && c1 == '=' { (TokenKind::EqEq, 2) }
    else if c0 == '!' && c1 == '=' { (TokenKind::Ne, 2) }
    else if c0 == '&' && c1 == '&' { (TokenKind::LogAnd, 2) }
    else if c0 == '|' && c1 == '|' { (TokenKind::LogOr, 2) }
    else if c0 == '(' { (TokenKind::LParen, 1) }
    else if c0 == ')' { (TokenKind::RParen, 1) }
    else if c0 == '[' { (TokenKind::LBracket, 1) }
    else if c0 == ']' { (TokenKind::RBracket, 1) }
    else if c0 == '{' { (TokenKind::LBrace, 1) }
    else if c0 == '}' { (TokenKind::RBrace, 1) }
    else if c0 == ',' { (TokenKind::Comma, 1) }
    else if c0 == ';' { (TokenKind::Semicolon, 1) }
    else if c0 == ':' { (TokenKind::Colon, 1) }
    else if c0 == '.' { (TokenKind::Dot, 1) }
    else if c0 == '#' { (TokenKind::Hash, 1) }
    else if c0 == '@' { (TokenKind::At, 1) }
    else if c0 == '?' { (TokenKind::Question, 1) }
    else if c0 == '=' { (TokenKind::Eq, 1) }
    else if c0 == '<' { (TokenKind::Lt, 1) }
    else if c0 == '>' { (TokenKind::Gt, 1) }
    else if c0 == '+' { (TokenKind::Plus, 1) }
    else if c0 == '-' { (TokenKind::Minus, 1) }
    else if c0 == '*' { (TokenKind::Star, 1) }
    else if c0 == '/' { (TokenKind::Slash, 1) }
    else if c0 == '%' { (TokenKind::Percent, 1) }
    else if c0 == '&' { (TokenKind::Amp, 1) }
    else if c0 == '|' { (TokenKind::Pipe, 1) }
    else if c0 == '^' { (TokenKind::Caret, 1) }
    else if c0 == '~' { (TokenKind::Tilde, 1) }
    else if c0 == '!' { (TokenKind::Bang, 1) }
    else { (TokenKind::Unknown, 1) }
}

/// Whether `c` starts a number (a decimal digit or a `'`).
pub open spec fn is_number_start(c: char) -> bool {
    ('0' <= c && c <= '9') || c == '\''
}

/// The class of a token with text `w` that starts the text `rest`: an identifier or keyword,
/// a number, or an operator / punctuation.
pub open spec fn token_kind_spec(w: Seq<char>, rest: Seq<char>) -> TokenKind {
    if is_ident_start(w[0]) {
        if w[0] == '$' {
            TokenKind::Identifier
        } else {
            match keyword_spec(w) {
                Some(kw) => kw,
                None => TokenKind::Identifier,
            }
        }
    } else if is_number_start(w[0]) {
        TokenKind::Number
    } else {
        punct_spec(rest).0
    }
}

/// End of the run of decimal digits and `_` starting at `j`.
pub open spec fn digits_run_end(text: Seq<char>, j: int) -> int
    decreases text.len() - j,
{
    if 0 <= j < text.len() && (('0' <= text[j] && text[j] <= '9') || text[j] == '_') {
        digits_run_end(text, j + 1)
    } else {
        j
    }
}

/// End of the run of based-literal digits starting at `j`.
pub open spec fn based_run_end(text: Seq<char>, j: int) -> int
    decreases text.len() - j,
{
    if 0 <= j < text.len() && is_based_digit(text[j]) {
        based_run_end(text, j + 1)
    } else {
        j
    }
}

/// Whether `c` names a base (`b`, `o`, `d`, `h`, either case).
pub open spec fn is_base_char(c: char) -> bool {
    c == 'b' || c == 'B' || c == 'o' || c == 'O' || c == 'd' || c == 'D' || c == 'h' || c == 'H'
}

/// End of the number literal starting at `i`: decimal digits and `_`, then optionally `'`, an
/// optional `s`/`S`, and a base letter with its digits; at least one character.
pub open spec fn number_end_spec(text: Seq<char>, i: int) -> int {
    let j = digits_run_end(text, i);
    let k = if j < text.len() && text[j] == '\'' {
        let j1 = j + 1;
        let j2 = if j1 < text.len() && (text[j1] == 's' || text[j1] == 'S') { j1 + 1 } else { j1 };
        if j2 < text.len() && is_base_char(text[j2]) {
            based_run_end(text, j2 + 1)
        } else {
            j2
        }
    } else {
        j
    };
    if k == i { i + 1 } else { k }
}

/// Index of the first newline at or after `i` (the text's length when there is none).
pub open spec fn line_end(text: Seq<char>, i: int) -> int
    decreases text.len() - i,
{
    if i >= text.len() {
        text.len() as int
    } else if text[i] == '\n' {
        i
    } else {
        line_end(text, i + 1)
    }
}

/// Index just after the first `*/` starting at or after `i` (the text's length when none).
pub open spec fn block_comment_end(text: Seq<char>, i: int) -> int
    decreases text.len() - i,
{
    if i + 1 >= text.len() {
        text.len() as int
    } else if text[i] == '*' && text[i + 1] == '/' {
        i + 2
    } else {
        block_comment_end(text, i + 1)
    }
}

/// A `//` or `/*` comment, or a backquote directive, starts at `i`.
pub open spec fn starts_comment(text: Seq<char>, i: int) -> bool {
    (text[i] == '/' && i + 1 < text.len() && (text[i + 1] == '/' || text[i + 1] == '*')) || text[i] == '`'
}

/// Where the comment or directive starting at `i` ends: after its `*/` for a block comment,
/// else at the end of its line (the newline is not part of it).
pub open spec fn comment_end(text: Seq<char>, i: int) -> int {
    if text[i] == '/' && i + 1 < text.len() && text[i + 1] == '*' {
        block_comment_end(text, i + 2)
    } else {
        line_end(text, i + 1)
    }
}

proof fn lemma_line_end_range(text: Seq<char>, i: int)
    requires
        0 <= i <= text.len(),
    ensures
        i <= line_end(text, i) <= text.len(),
    decreases text.len() - i,
{
    if i < text.len() && text[i] != '\n' {
        lemma_line_end_range(text, i + 1);
    }
}

proof fn lemma_block_end_range(text: Seq<char>, i: int)
    requires
        0 <= i <= text.len(),
    ensures
        i <= block_comment_end(text, i) <= text.len(),
    decreases text.len() - i,
{
    if i + 1 < text.len() && !(text[i] == '*' && text[i + 1] == '/') {
        lemma_block_end_range(text, i + 1);
    }
}

/// A comment or directive ends after its start and within the text.
proof fn lemma_comment_end_range(text: Seq<char>, i: int)
    requires
        0 <= i < text.len(),
    ensures
        i < comment_end(text, i) <= text.len(),
{
    if text[i] == '/' && i + 1 < text.len() && text[i + 1] == '*' {
        lemma_block_end_range(text, i + 2);
    } else {
        lemma_line_end_range(text, i + 1);
    }
}

/// The text from `a` to `b` holds only whitespace, comments and directives (the material the
/// lexer skips).
pub open spec fn skippable(text: Seq<char>, a: int, b: int) -> bool
    decreases b - a,
{
    if a >= b {
        a == b
    } else if !(0 <= a < text.len()) {
        false
    } else if is_ws(text[a]) {
        skippable(text, a + 1, b)
    } else if starts_comment(text, a) {
        let e = comment_end(text, a);
        if e <= a {
            false
        } else {
            e <= b && skippable(text, e, b)
        }
    } else {
        false
    }
}

/// Skippable stretches join.
proof fn lemma_skippable_join(text: Seq<char>, a: int, b: int, c: int)
    requires
        skippable(text, a, b),
        skippable(text, b, c),
    ensures
        skippable(text, a, c),
    decreases b - a,
{
    if a < b {
        if is_ws(text[a]) {
            lemma_skippable_join(text, a + 1, b, c);
        } else {
            lemma_skippable_join(text, comment_end(text, a), b, c);
        }
    }
}

/// One whitespace character is skippable.
proof fn lemma_skippable_ws(text: Seq<char>, a: int)
    requires
        0 <= a < text.len(),
        is_ws(text[a]),
    ensures
        skippable(text, a, a + 1),
{
    assert(skippable(text, a + 1, a + 1));
}

/// One comment or directive is skippable.
proof fn lemma_skippable_comment(text: Seq<char>, a: int)
    requires
        0 <= a < text.len(),
        !is_ws(text[a]),
        starts_comment(text, a),
    ensures
        skippable(text, a, comment_end(text, a)),
{
    lemma_comment_end_range(text, a);
    let e = comment_end(text, a);
    assert(skippable(text, e, e));
}

/// Token `t` is a well-placed token of `text`: its non-empty text is found at its offset and
/// starts neither with whitespace nor a comment, its class is that of its text, an identifier
/// or keyword is not followed by another identifier character, a number runs as far as
/// [`number_end_spec`] says, and an operator is the longest one there.
#[verifier::opaque]
pub open spec fn token_in_text(t: Token, text: Seq<char>) -> bool {
    let w = t.lexeme@;
    let end = t.offset + w.len();
    &&& w.len() > 0
    &&& end <= text.len()
    &&& w == text.subrange(t.offset as int, end)
    &&& !is_ws(w[0])
    &&& !starts_comment(text, t.offset as int)
    &&& t.kind == token_kind_spec(w, text.skip(t.offset as int))
    &&& (is_ident_start(w[0]) ==> end == text.len() || !is_ident_char(text[end]))
    &&& (!is_ident_start(w[0]) && is_number_start(w[0]) ==> end == number_end_spec(text, t.offset as int))
    &&& (!is_ident_start(w[0]) && !is_number_start(w[0]) ==> w.len() == punct_spec(text.skip(t.offset as int)).1)
}

fn is_ident_start_char(c: char) -> (b: bool)
    ensures
        b == is_ident_start(c),
{
    ('a' <= c && c <= 'z') || ('A' <= c && c <= 'Z') || c == '_' || c == '$'
}

fn is_ident_char_char(c: char) -> (b: bool)
    ensures
        b == is_ident_char(c),
{
    is_ident_start_char(c) || ('0' <= c && c <= '9')
}

fn is_based_digit_char(c: char) -> (b: bool)
    ensures
        b == is_based_digit(c),
{
    is_ident_char_char(c) && c != '$' || c == '?'
}

fn seq_is(w: &Vec<char>, lit: &[char]) -> (b: bool)
    ensures
        b == (w@ == lit@),
{
    if w.len() != lit.len() {
        return false;
    }
    let mut i: usize = 0;
    while i < w.len()
        invariant
            i <= w.len(),
            w.len() == lit.len(),
            forall|j: int| 0 <= j < i ==> w@[j] == lit@[j],
        decreases w.len() - i,
    {
        if w[i] != lit[i] {
            return false;
        }
        i = i + 1;
    }
    assert(w@ == lit@);
    true
}

/// Keyword class of `w`, or `Identifier`.
fn keyword_or_ident(w: &Vec<char>) -> (k: TokenKind)
    ensures
        k == match keyword_spec(w@) {
            Some(kw) => kw,
            None => TokenKind::Identifier,
        },
{
    if seq_is(w, &['m', 'o', 'd', 'u', 'l', 'e']) { return TokenKind::Module; }
    if seq_is(w, &['m', 'a', 'c', 'r', 'o', 'm', 'o', 'd', 'u', 'l', 'e']) { return TokenKind::Module; }
    if seq_is(w, &['e', 'n', 'd', 'm', 'o', 'd', 'u', 'l', 'e']) { return TokenKind::Endmodule; }
    if seq_is(w, &['i', 'n', 'p', 'u', 't']) { return TokenKind::Input; }
    if seq_is(w, &['o', 'u', 't', 'p', 'u', 't']) { return TokenKind::Output; }
    if seq_is(w, &['i', 'n', 'o', 'u', 't']) { return TokenKind::Inout; }
    if seq_is(w, &['w', 'i', 'r', 'e']) { return TokenKind::Wire; }
    if seq_is(w, &['r', 'e', 'g']) { return TokenKind::Reg; }
    if seq_is(w, &['l', 'o', 'g', 'i', 'c']) { return TokenKind::Logic; }
    if seq_is(w, &['i', 'n', 't', 'e', 'g', 'e', 'r']) { return TokenKind::Integer; }
    if seq_is(w, &['s', 'i', 'g', 'n', 'e', 'd']) { return TokenKind::Signed; }
    if seq_is(w, &['a', 's', 's', 'i', 'g', 'n']) { return TokenKind::Assign; }
    if seq_is(w, &['a', 'l', 'w', 'a', 'y', 's']) { return TokenKind::Always; }
    if seq_is(w, &['i', 'n', 'i', 't', 'i', 'a', 'l']) { return TokenKind::Initial; }
    if seq_is(w, &['b', 'e', 'g', 'i', 'n']) { return TokenKind::Begin; }
    if seq_is(w, &['e', 'n', 'd']) { return TokenKind::End; }
    if seq_is(w, &['i', 'f']) { return TokenKind::If; }
    if seq_is(w, &['e', 'l', 's', 'e']) { return TokenKind::Else; }
    if seq_is(w, &['c', 'a', 's', 'e']) { return TokenKind::Case; }
    if seq_is(w, &['e', 'n', 'd', 'c', 'a', 's', 'e']) { return TokenKind::Endcase; }
    if seq_is(w, &['d', 'e', 'f', 'a', 'u', 'l', 't']) { return TokenKind::Default; }
    if seq_is(w, &['f', 'o', 'r']) { return TokenKind::For; }
    if seq_is(w, &['p', 'o', 's', 'e', 'd', 'g', 'e']) { return TokenKind::Posedge; }
    if seq_is(w, &['n', 'e', 'g', 'e', 'd', 'g', 'e']) { return TokenKind::Negedge; }
    if seq_is(w, &['p', 'a', 'r', 'a', 'm', 'e', 't', 'e', 'r']) { return TokenKind::Parameter; }
    if seq_is(w, &['l', 'o', 'c', 'a', 'l', 'p', 'a', 'r', 'a', 'm']) { return TokenKind::Localparam; }
    if seq_is(w, &['g', 'e', 'n', 'v', 'a', 'r']) { return TokenKind::Genvar; }
    if seq_is(w, &['g', 'e', 'n', 'e', 'r', 'a', 't', 'e']) { return TokenKind::Generate; }
    if seq_is(w, &['e', 'n', 'd', 'g', 'e', 'n', 'e', 'r', 'a', 't', 'e']) { return TokenKind::Endgenerate; }
    TokenKind::Identifier
}

/// Class and length of the operator or punctuation starting at `i` (longest match).
fn punct_at(c: &Vec<char>, i: usize) -> (r: (TokenKind, usize))
    requires
        i < c.len(),
    ensures
        1 <= r.1 <= 3,
        i + r.1 <= c.len(),
        r.0 != TokenKind::Eof,
        r.0 == punct_spec(c@.skip(i as int)).0 && r.1 == punct_spec(c@.skip(i as int)).1,
{
    let n = c.len();
    let c0 = c[i];
    let c1 = if i + 1 < n { c[i + 1] } else { '\0' };
    let c2 = if n - i > 2 { c[i + 2] } else { '\0' };
    if c0 == '>' && c1 == '>' && c2 == '>' { return (TokenKind::Ashr, 3); }
    if c0 == '<' && c1 == '<' && c2 == '<' { return (TokenKind::Shl, 3); }
    if c0 == '=' && c1 == '=' && c2 == '=' { return (TokenKind::EqEq, 3); }
    if c0 == '!' && c1 == '=' && c2 == '=' { return (TokenKind::Ne, 3); }
    if c0 == '>' && c1 == '>' { return (TokenKind::Shr, 2); }
    if c0 == '<' && c1 == '<' { return (TokenKind::Shl, 2); }
    if c0 == '<' && c1 == '=' { return (TokenKind::Le, 2); }
    if c0 == '>' && c1 == '=' { return (TokenKind::Ge, 2); }
    if c0 == '=' && c1 == '=' { return (TokenKind::EqEq, 2); }
    if c0 == '!' && c1 == '=' { return (TokenKind::Ne, 2); }
    if c0 == '&' && c1 == '&' { return (TokenKind::LogAnd, 2); }
    if c0 == '|' && c1 == '|' { return (TokenKind::LogOr, 2); }
    let k = if c0 == '(' { TokenKind::LParen }
        else if c0 == ')' { TokenKind::RParen }
        else if c0 == '[' { TokenKind::LBracket }
        else if c0 == ']' { TokenKind::RBracket }
        else if c0 == '{' { TokenKind::LBrace }
        else if c0 == '}' { TokenKind::RBrace }
        else if c0 == ',' { TokenKind::Comma }
        else if c0 == ';' { TokenKind::Semicolon }
        else if c0 == ':' { TokenKind::Colon }
        else if c0 == '.' { TokenKind::Dot }
        else if c0 == '#' { TokenKind::Hash }
        else if c0 == '@' { TokenKind::At }
        else if c0 == '?' { TokenKind::Question }
        else if c0 == '=' { TokenKind::Eq }
        else if c0 == '<' { TokenKind::Lt }
        else if c0 == '>' { TokenKind::Gt }
        else if c0 == '+' { TokenKind::Plus }
        else if c0 == '-' { TokenKind::Minus }
        else if c0 == '*' { TokenKind::Star }
        else if c0 == '/' { TokenKind::Slash }
        else if c0 == '%' { TokenKind::Percent }
        else if c0 == '&' { TokenKind::Amp }
        else if c0 == '|' { TokenKind::Pipe }
        else if c0 == '^' { TokenKind::Caret }
        else if c0 == '~' { TokenKind::Tilde }
        else if c0 == '!' { TokenKind::Bang }
        else { TokenKind::Unknown };
    (k, 1)
}

/// End of a number starting at `i`: decimal digits and `_`, then an optional
/// `'[sS]?<base><digits>` part (the whole literal may also start at the `'`).
fn number_end(c: &Vec<char>, i: usize) -> (e: usize)
    requires
        i < c.len(),
        ('0' <= c@[i as int] && c@[i as int] <= '9') || c@[i as int] == '\'',
    ensures
        i < e <= c.len(),
        e == number_end_spec(c@, i as int),
{
    let n = c.len();
    let mut j = i;
    while j < n && (('0' <= c[j] && c[j] <= '9') || c[j] == '_')
        invariant
            i <= j <= n,
            n == c.len(),
            digits_run_end(c@, i as int) == digits_run_end(c@, j as int),
        decreases n - j,
    {
        j = j + 1;
    }
    if j < n && c[j] == '\'' {
        j = j + 1;
        if j < n && (c[j] == 's' || c[j] == 'S') {
            j = j + 1;
        }
        if j < n && (c[j] == 'b' || c[j] == 'B' || c[j] == 'o' || c[j] == 'O' || c[j] == 'd' || c[j] == 'D'
            || c[j] == 'h' || c[j] == 'H') {
            j = j + 1;
            let ghost j0 = j as int;
            while j < n && is_based_digit_char(c[j])
                invariant
                    i < j <= n,
                    n == c.len(),
                    based_run_end(c@, j0) == based_run_end(c@, j as int),
                decreases n - j,
            {
                j = j + 1;
            }
        }
    }
    if j == i { i + 1 } else { j }
}

/// The position after the comment or directive starting at `i`: a `//` comment or a backquote
/// directive runs to the end of its line (the newline stays), a `/* */` comment to its closing
/// `*/` or the end of the text.
fn skip_comment_at(c: &Vec<char>, i: usize) -> (j: usize)
    requires
        i < c.len(),
        starts_comment(c@, i as int),
    ensures
        i < j <= c.len(),
        j == comment_end(c@, i as int),
{
    let n = c.len();
    if c[i] == '/' && i + 1 < n && c[i + 1] == '*' {
        let mut j = i + 2;
        while j < n && !(c[j] == '*' && j + 1 < n && c[j + 1] == '/')
            invariant
                i < j <= n,
                n == c.len(),
                block_comment_end(c@, i + 2) == block_comment_end(c@, j as int),
            decreases n - j,
        {
            j = j + 1;
        }
        if n - j >= 2 { j + 2 } else { n }
    } else {
        let mut j = i + 1;
        while j < n && c[j] != '\n'
            invariant
                i < j <= n,
                n == c.len(),
                line_end(c@, i + 1) == line_end(c@, j as int),
            decreases n - j,
        {
            j = j + 1;
        }
        j
    }
}

/// The token starting at `i`: an identifier or keyword (as long as possible), a number, or
/// an operator / punctuation (longest match).
fn token_at(c: &Vec<char>, i: usize) -> (t: Token)
    requires
        i < c.len(),
        !is_ws(c@[i as int]),
        !starts_comment(c@, i as int),
    ensures
        t.offset == i,
        t.kind != TokenKind::Eof,
        t.lexeme@.len() > 0,
        i + t.lexeme@.len() <= c.len(),
        token_in_text(t, c@),
{
    reveal(token_in_text);
    let n = c.len();
    let ch = c[i];
    if is_ident_start_char(ch) {
        let mut j = i + 1;
        while j < n && is_ident_char_char(c[j])
            invariant
                i < j <= n,
                n == c.len(),
            decreases n - j,
        {
            j = j + 1;
        }
        let w = slice_chars(c, i, j);
        let kind = if ch == '$' { TokenKind::Identifier } else { keyword_or_ident(&w) };
        let t = Token { kind, lexeme: string_from_chars(&w), offset: i };
        assert(w@[0] == ch);
        proof {
            if kind == TokenKind::Eof {
                assert(keyword_spec(w@) != Some(TokenKind::Eof));
            }
        }
        t
    } else if ('0' <= ch && ch <= '9') || ch == '\'' {
        let j = number_end(c, i);
        let w = slice_chars(c, i, j);
        assert(w@[0] == ch);
        Token { kind: TokenKind::Number, lexeme: string_from_chars(&w), offset: i }
    } else {
        let (kind, len) = punct_at(c, i);
        let w = slice_chars(c, i, i + len);
        assert(w@[0] == ch);
        assert(c@.skip(i as int)[0] == ch);
        Token { kind, lexeme: string_from_chars(&w), offset: i }
    }
}

/// `tokens` split `text`: each token but the last, in order and without overlap, is a
/// well-placed token of the text ([`token_in_text`]); the last is the only `Eof`, empty, at the
/// end of the text; and what lies before, between and after the tokens is [`skippable`].
pub open spec fn lexed(tokens: Seq<Token>, text: Seq<char>) -> bool {
    &&& tokens_wf(tokens)
    &&& tokens.last().offset == text.len()
    &&& tokens.last().lexeme@.len() == 0
    &&& forall|i: int| 0 <= i < tokens.len() ==> (#[trigger] tokens[i]).offset <= text.len()
    &&& forall|i: int| 0 <= i < tokens.len() - 1 ==> token_in_text(#[trigger] tokens[i], text)
    &&& forall|i: int, j: int|
        0 <= i < j < tokens.len() ==> (#[trigger] tokens[i]).offset + tokens[i].lexeme@.len() <= (#[trigger] tokens[j]).offset
    &&& skippable(text, 0, tokens[0].offset as int)
    &&& forall|i: int, j: int|
        0 <= i && j == i + 1 && j < tokens.len() ==> skippable(
            text,
            (#[trigger] tokens[i]).offset + tokens[i].lexeme@.len(),
            (#[trigger] tokens[j]).offset as int,
        )
}

/// Splits `file.content` into tokens. Whitespace, `//` and `/* */` comments and compiler
/// directives (a backquote up to the end of its line) are skipped; the list always ends with
/// exactly one `Eof`, at the end of the text.
pub fn lex(file: &SourceFile) -> (tokens: Vec<Token>)
    ensures
        lexed(tokens@, file.content@),
{
    let c = chars_of(file.content.as_str());
    let n = c.len();
    let mut tokens: Vec<Token> = Vec::new();
    let mut i: usize = 0;
    let ghost mut last_end: int = 0;
    assert(skippable(c@, 0, 0));
    while i < n
        invariant
            i <= n,
            n == c.len(),
            c@ == file.content@,
            forall|k: int| 0 <= k < tokens.len() ==> (#[trigger] tokens@[k]).kind != TokenKind::Eof,
            forall|k: int| 0 <= k < tokens.len() ==> (#[trigger] tokens@[k]).offset <= n,
            forall|k: int| 0 <= k < tokens.len() ==> token_in_text(#[trigger] tokens@[k], c@),
            forall|k: int| 0 <= k < tokens.len() ==> (#[trigger] tokens@[k]).offset + tokens@[k].lexeme@.len() <= i,
            forall|k: int, l: int|
                0 <= k < l < tokens.len() ==> (#[trigger] tokens@[k]).offset + tokens@[k].lexeme@.len() <= (#[trigger] tokens@[l]).offset,
            0 <= last_end <= i,
            tokens.len() == 0 ==> last_end == 0,
            tokens.len() > 0 ==> last_end == tokens@.last().offset + tokens@.last().lexeme@.len(),
            skippable(c@, last_end, i as int),
            tokens.len() > 0 ==> skippable(c@, 0, tokens@[0].offset as int),
            forall|k: int, l: int|
                0 <= k && l == k + 1 && l < tokens.len() ==> skippable(
                    c@,
                    (#[trigger] tokens@[k]).offset + tokens@[k].lexeme@.len(),
                    (#[trigger] tokens@[l]).offset as int,
                ),
        decreases n - i,
    {
        let ch = c[i];
        if char_is_ws(ch) {
            proof {
                lemma_skippable_ws(c@, i as int);
                lemma_skippable_join(c@, last_end, i as int, i + 1);
            }
            i = i + 1;
        } else if (ch == '/' && i + 1 < n && (c[i + 1] == '/' || c[i + 1] == '*')) || ch == '`' {
            let j = skip_comment_at(&c, i);
            proof {
                lemma_skippable_comment(c@, i as int);
                lemma_skippable_join(c@, last_end, i as int, j as int);
            }
            i = j;
        } else {
            let t = token_at(&c, i);
            let ghost before = tokens@;
            let ghost gap_start = last_end;
            let len = t.lexeme.unicode_len();
            i = i + len;
            tokens.push(t);
            proof {
                assert forall|k: int, l: int| 0 <= k < l < tokens.len() implies (#[trigger] tokens@[k]).offset
                    + tokens@[k].lexeme@.len() <= (#[trigger] tokens@[l]).offset by {
                    assert(tokens@[k] == before[k]);
                    if l < before.len() {
                        assert(tokens@[l] == before[l]);
                    }
                }
                assert forall|k: int, l: int| 0 <= k && l == k + 1 && l < tokens.len() implies skippable(
                    c@,
                    (#[trigger] tokens@[k]).offset + tokens@[k].lexeme@.len(),
                    (#[trigger] tokens@[l]).offset as int,
                ) by {
                    assert(tokens@[k] == before[k]);
                    if l < before.len() {
                        assert(tokens@[l] == before[l]);
                    } else {
                        assert(before.last() == before[k]);
                    }
                }
                if before.len() > 0 {
                    assert(tokens@[0] == before[0]);
                }
                last_end = i as int;
                assert(skippable(c@, last_end, last_end));
            }
        }
    }
    let ghost before = tokens@;
    tokens.push(Token { kind: TokenKind::Eof, lexeme: String::new(), offset: n });
    proof {
        assert forall|k: int, l: int| 0 <= k && l == k + 1 && l < tokens.len() implies skippable(
            c@,
            (#[trigger] tokens@[k]).offset + tokens@[k].lexeme@.len(),
            (#[trigger] tokens@[l]).offset as int,
        ) by {
            assert(tokens@[k] == before[k]);
            if l < before.len() {
                assert(tokens@[l] == before[l]);
            } else {
                assert(before.last() == before[k]);
            }
        }
        if before.len() > 0 {
            assert(tokens@[0] == before[0]);
        }
        assert forall|k: int, l: int| 0 <= k < l < tokens.len() implies (#[trigger] tokens@[k]).offset
            + tokens@[k].lexeme@.len() <= (#[trigger] tokens@[l]).offset by {
            assert(tokens@[k] == before[k]);
            if l < before.len() {
                assert(tokens@[l] == before[l]);
            }
        }
    }
    tokens
}

} // verus!
