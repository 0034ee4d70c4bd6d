//! Recursive-descent parser from tokens to a concrete syntax tree (modules and their items).
use vstd::prelude::*;
use crate::delay_rational::{lexeme_delay_spec, zero_delay, DelayRational};
use crate::expr_const::{const_eval_param_expr, const_eval_spec, resolve_local_param_values, resolve_spec};
use crate::lexer::{tokens_wf, Token, TokenKind};
use crate::strutil::{chars_of, concat_chars, i64_to_string, parse_u128, parse_unsigned_spec, signed_decimal_spec, string_from_chars};
use crate::{has_error, Diagnostic, Module, ParseResult, Port, Severity, SourceFile};

verus! {

/// Concrete syntax for a parsed Verilog (IEEE 1364) file: its modules.
#[derive(Debug, Clone)]
pub struct CstFile {
    pub modules: Vec<CstModule>,
}

/// Concrete syntax node for a `module` declaration.
#[derive(Debug, Clone)]
pub struct CstModule {
    pub name: String,
    pub ports: Vec<Port>,
    /// `#(parameter W = 16, ...)` from the module header.
    pub module_parameters: Vec<(String, Expr)>,
    pub path: String,
    pub items: Vec<CstModuleItem>,
}

/// Module body item.
#[derive(Debug, Clone)]
pub enum CstModuleItem {
    NetDecl {
        kind: NetKind,
        /// Packed `[msb:lsb]` when present; scalar width uses `width` when this is `None`.
        packed_dim: Option<(Expr, Expr)>,
        width: usize,
        names: Vec<String>,
        /// Unpacked `[hi:lo]` per stem (`x[0:9]`).
        unpacked_stems: Vec<(String, Expr, Expr)>,
        /// `input` / `output` / `inout` from a directional declaration in the module body.
        decl_dir: Option<String>,
    },
    Assign { target: AssignTarget, expr: Expr },
    Instance {
        module_name: String,
        /// `#(.param(expr), ...)`; empty without a parameter override list.
        parameter_assignments: Vec<(String, Expr)>,
        instance_name: String,
        connections: Vec<PortConnection>,
    },
    Always { sensitivity: Sensitivity, body: Vec<CstStmt> },
    Initial { body: Vec<CstStmt> },
    /// `localparam` / `parameter` assignments.
    LocalParam { assignments: Vec<(String, Expr)> },
    /// `generate for (i=0; i<N; i=i+1) begin ... <one instance> end`, expanded during lowering.
    GenerateFor {
        loop_var: String,
        upper_expr: Expr,
        module_name: String,
        parameter_assignments: Vec<(String, Expr)>,
        instance_stem: String,
        connections: Vec<PortConnection>,
    },
}

/// Port connection: `.port_name(expr)` or positional (`expr` only).
#[derive(Debug, Clone)]
pub struct PortConnection {
    pub port_name: Option<String>,
    pub expr: Expr,
}

/// Sensitivity list of an `always` block.
#[derive(Debug, Clone)]
pub enum Sensitivity {
    Star,
    EdgeList(Vec<SensEdge>),
}

/// One entry of an explicit sensitivity list.
#[derive(Debug, Clone)]
pub struct SensEdge {
    pub edge: EdgeKind,
    pub signal: String,
}

/// Edge qualifier of a sensitivity entry.
#[derive(Debug, Clone, Copy, PartialEq, Eq, Structural)]
pub enum EdgeKind {
    Posedge,
    Negedge,
    Level,
}

/// Left-hand side of an assignment (`reg`, `reg[i]`, `reg[msb:lsb]`).
#[derive(Debug)]
pub enum AssignTarget {
    Whole(String),
    BitSelect { reg: String, index: Expr },
    PartSelect { reg: String, msb: Expr, lsb: Expr },
}

/// Procedural statement inside an `always` / `initial` block.
#[derive(Debug)]
pub enum CstStmt {
    BlockingAssign { target: AssignTarget, rhs: Expr },
    NonBlockingAssign { target: AssignTarget, rhs: Expr },
    IfElse { cond: Expr, then_body: Vec<CstStmt>, else_body: Vec<CstStmt> },
    Case { expr: Expr, arms: Vec<CaseArm>, default: Vec<CstStmt> },
    For {
        init_var: String,
        init_val: Expr,
        cond: Expr,
        step_var: String,
        step_expr: Expr,
        body: Vec<CstStmt>,
    },
    Delay(DelayRational),
    SystemTask { name: String, args: Vec<Expr> },
}

/// One `value: body` arm of a `case`.
#[derive(Debug)]
pub struct CaseArm {
    pub value: Expr,
    pub body: Vec<CstStmt>,
}

/// Net class of a declaration.
#[derive(Debug, Copy, Clone, PartialEq, Eq, Structural)]
pub enum NetKind {
    Wire,
    Reg,
}

/// Expression tree.
#[derive(Debug, PartialEq)]
pub enum Expr {
    Ident(String),
    Number(String),
    Binary { op: BinaryOp, left: Box<Expr>, right: Box<Expr> },
    Unary { op: UnaryOp, operand: Box<Expr> },
    Ternary { cond: Box<Expr>, then_expr: Box<Expr>, else_expr: Box<Expr> },
    Concat(Vec<Expr>),
    /// `base[msb]` or `base[msb:lsb]`.
    Index { base: Box<Expr>, msb: Box<Expr>, lsb: Option<Box<Expr>> },
    /// `$clog2(expr)`.
    Clog2(Box<Expr>),
    /// `$signed(expr)`.
    Signed(Box<Expr>),
}

/// Binary operators.
#[derive(Debug, Copy, Clone, PartialEq, Eq, Structural)]
pub enum BinaryOp {
    Add,
    Sub,
    Mul,
    Div,
    Mod,
    And,
    Or,
    Xor,
    Shl,
    Shr,
    Ashr,
    LogAnd,
    LogOr,
    Eq,
    Ne,
    Lt,
    Le,
    Gt,
    Ge,
}

/// Unary operators.
#[derive(Debug, Copy, Clone, PartialEq, Eq, Structural)]
pub enum UnaryOp {
    Not,
    LogNot,
    Neg,
    Pos,
}


impl Clone for Expr {
    fn clone(&self) -> (r: Self)
        decreases self,
    {
        match self {
            Expr::Ident(s) => Expr::Ident(s.clone()),
            Expr::Number(s) => Expr::Number(s.clone()),
            Expr::Binary { op, left, right } => Expr::Binary {
                op: *op,
                left: Box::new((**left).clone()),
                right: Box::new((**right).clone()),
            },
            Expr::Unary { op, operand } => Expr::Unary { op: *op, operand: Box::new((**operand).clone()) },
            Expr::Ternary { cond, then_expr, else_expr } => Expr::Ternary {
                cond: Box::new((**cond).clone()),
                then_expr: Box::new((**then_expr).clone()),
                else_expr: Box::new((**else_expr).clone()),
            },
            Expr::Concat(es) => Expr::Concat(clone_exprs(es)),
            Expr::Index { base, msb, lsb } => Expr::Index {
                base: Box::new((**base).clone()),
                msb: Box::new((**msb).clone()),
                lsb: match lsb {
                    Some(l) => Some(Box::new((**l).clone())),
                    None => None,
                },
            },
            Expr::Clog2(a) => Expr::Clog2(Box::new((**a).clone())),
            Expr::Signed(a) => Expr::Signed(Box::new((**a).clone())),
        }
    }
}

impl Clone for AssignTarget {
    fn clone(&self) -> (r: Self) {
        match self {
            AssignTarget::Whole(s) => AssignTarget::Whole(s.clone()),
            AssignTarget::BitSelect { reg, index } => AssignTarget::BitSelect { reg: reg.clone(), index: index.clone() },
            AssignTarget::PartSelect { reg, msb, lsb } => AssignTarget::PartSelect {
                reg: reg.clone(),
                msb: msb.clone(),
                lsb: lsb.clone(),
            },
        }
    }
}

impl Clone for CaseArm {
    fn clone(&self) -> (r: Self)
        decreases self,
    {
        CaseArm { value: self.value.clone(), body: clone_stmts(&self.body) }
    }
}

impl Clone for CstStmt {
    fn clone(&self) -> (r: Self)
        decreases self,
    {
        match self {
            CstStmt::BlockingAssign { target, rhs } => CstStmt::BlockingAssign { target: target.clone(), rhs: rhs.clone() },
            CstStmt::NonBlockingAssign { target, rhs } => CstStmt::NonBlockingAssign {
                target: target.clone(),
                rhs: rhs.clone(),
            },
            CstStmt::IfElse { cond, then_body, else_body } => CstStmt::IfElse {
                cond: cond.clone(),
                then_body: clone_stmts(then_body),
                else_body: clone_stmts(else_body),
            },
            CstStmt::Case { expr, arms, default } => CstStmt::Case {
                expr: expr.clone(),
                arms: clone_arms(arms),
                default: clone_stmts(default),
            },
            CstStmt::For { init_var, init_val, cond, step_var, step_expr, body } => CstStmt::For {
                init_var: init_var.clone(),
                init_val: init_val.clone(),
                cond: cond.clone(),
                step_var: step_var.clone(),
                step_expr: step_expr.clone(),
                body: clone_stmts(body),
            },
            CstStmt::Delay(d) => CstStmt::Delay(*d),
            CstStmt::SystemTask { name, args } => CstStmt::SystemTask { name: name.clone(), args: clone_exprs(args) },
        }
    }
}

/// An element-by-element copy of `v`.
fn clone_stmts(v: &Vec<CstStmt>) -> (r: Vec<CstStmt>)
    ensures
        r@.len() == v@.len(),
    decreases v@,
{
    let mut r: Vec<CstStmt> = Vec::new();
    let mut i: usize = 0;
    while i < v.len()
        invariant
            i <= v.len(),
            r@.len() == i,
        decreases v.len() - i,
    {
        assert(decreases_to!(v@ => v@[i as int]));
        r.push(v[i].clone());
        i = i + 1;
    }
    r
}

/// An element-by-element copy of `v`.
fn clone_arms(v: &Vec<CaseArm>) -> (r: Vec<CaseArm>)
    ensures
        r@.len() == v@.len(),
    decreases v@,
{
    let mut r: Vec<CaseArm> = Vec::new();
    let mut i: usize = 0;
    while i < v.len()
        invariant
            i <= v.len(),
            r@.len() == i,
        decreases v.len() - i,
    {
        assert(decreases_to!(v@ => v@[i as int]));
        r.push(v[i].clone());
        i = i + 1;
    }
    r
}

/// An element-by-element copy of `es`.
fn clone_exprs(es: &Vec<Expr>) -> (r: Vec<Expr>)
    ensures
        r@.len() == es@.len(),
    decreases es@,
{
    let mut r: Vec<Expr> = Vec::new();
    let mut i: usize = 0;
    while i < es.len()
        invariant
            i <= es.len(),
            r@.len() == i,
        decreases es.len() - i,
    {
        assert(decreases_to!(es@ => es@[i as int]));
        r.push(es[i].clone());
        i = i + 1;
    }
    r
}


/// `n + 1`, saturating at `usize::MAX`.
pub open spec fn sat_inc(n: usize) -> usize {
    if n == usize::MAX { n } else { (n + 1) as usize }
}

/// 1-based line and column of character `offset` in `text` (counts saturate at `usize::MAX`).
pub open spec fn line_col_spec(text: Seq<char>, offset: int) -> (usize, usize)
    decreases (if offset > 0 { offset } else { 0 }),
{
    if offset <= 0 || text.len() == 0 {
        (1, 1)
    } else if offset > text.len() {
        line_col_spec(text, text.len() as int)
    } else {
        let (l, c) = line_col_spec(text, offset - 1);
        if text[offset - 1] == '\n' { (sat_inc(l), 1) } else { (l, sat_inc(c)) }
    }
}

/// 1-based line and column of character `offset` in `text` (offsets past the end stop there).
pub fn offset_to_line_col(text: &str, offset: usize) -> (r: (usize, usize))
    ensures
        r == line_col_spec(text@, offset as int),
{
    let chars = chars_of(text);
    let limit = if offset < chars.len() { offset } else { chars.len() };
    let mut line: usize = 1;
    let mut col: usize = 1;
    let mut i: usize = 0;
    proof { lemma_line_col_bound(chars@, 0); }
    while i < limit
        invariant
            i <= limit <= chars.len(),
            chars@ == text@,
            (line, col) == line_col_spec(chars@, i as int),
        decreases limit - i,
    {
        if chars[i] == '\n' {
            line = line.saturating_add(1);
            col = 1;
        } else {
            col = col.saturating_add(1);
        }
        i = i + 1;
    }
    (line, col)
}

proof fn lemma_line_col_bound(text: Seq<char>, offset: int)
    ensures
        line_col_spec(text, 0) == (1usize, 1usize),
{
}

/// The parser state: the file, its tokens and the cursor.
pub struct Parser<'a> {
    pub file: &'a SourceFile,
    pub tokens: &'a [Token],
    pub pos: usize,
    pub diagnostics: Vec<Diagnostic>,
}

/// The text of a delay literal at token `p`: a number, followed by `.` and the fraction when a
/// `.` and a number come next; empty when no number stands there.
pub open spec fn delay_text_at(toks: Seq<Token>, p: int) -> Seq<char> {
    if toks[p].kind != TokenKind::Number {
        seq![]
    } else if p + 2 < toks.len() && toks[p + 1].kind == TokenKind::Dot && toks[p + 2].kind == TokenKind::Number {
        toks[p].lexeme@ + seq!['.'] + toks[p + 2].lexeme@
    } else {
        toks[p].lexeme@
    }
}

/// Whether a name is a system name (`$...`).
pub open spec fn is_system_name(w: Seq<char>) -> bool {
    w.len() > 0 && w[0] == '$'
}

/// The register an assignment target writes.
pub open spec fn target_reg(t: AssignTarget) -> String {
    match t {
        AssignTarget::Whole(r) => r,
        AssignTarget::BitSelect { reg, .. } => reg,
        AssignTarget::PartSelect { reg, .. } => reg,
    }
}

/// Binding strength of a binary operator token (`||` 1 up to `* / %` 10); 0 for any other token.
/// An expression parsed at a minimum strength ends before no operator of that strength or more.
pub open spec fn binary_prec(k: TokenKind) -> nat {
    match k {
        TokenKind::LogOr => 1,
        TokenKind::LogAnd => 2,
        TokenKind::Pipe => 3,
        TokenKind::Caret => 4,
        TokenKind::Amp => 5,
        TokenKind::EqEq | TokenKind::Ne => 6,
        TokenKind::Lt | TokenKind::Le | TokenKind::Gt | TokenKind::Ge => 7,
        TokenKind::Shl | TokenKind::Shr | TokenKind::Ashr => 8,
        TokenKind::Plus | TokenKind::Minus => 9,
        TokenKind::Star | TokenKind::Slash | TokenKind::Percent => 10,
        _ => 0,
    }
}

/// The binary operator a token stands for, if any.
pub open spec fn binary_op_of(k: TokenKind) -> Option<BinaryOp> {
    match k {
        TokenKind::LogOr => Some(BinaryOp::LogOr),
        TokenKind::LogAnd => Some(BinaryOp::LogAnd),
        TokenKind::Pipe => Some(BinaryOp::Or),
        TokenKind::Caret => Some(BinaryOp::Xor),
        TokenKind::Amp => Some(BinaryOp::And),
        TokenKind::EqEq => Some(BinaryOp::Eq),
        TokenKind::Ne => Some(BinaryOp::Ne),
        TokenKind::Lt => Some(BinaryOp::Lt),
        TokenKind::Le => Some(BinaryOp::Le),
        TokenKind::Gt => Some(BinaryOp::Gt),
        TokenKind::Ge => Some(BinaryOp::Ge),
        TokenKind::Shl => Some(BinaryOp::Shl),
        TokenKind::Shr => Some(BinaryOp::Shr),
        TokenKind::Ashr => Some(BinaryOp::Ashr),
        TokenKind::Plus => Some(BinaryOp::Add),
        TokenKind::Minus => Some(BinaryOp::Sub),
        TokenKind::Star => Some(BinaryOp::Mul),
        TokenKind::Slash => Some(BinaryOp::Div),
        TokenKind::Percent => Some(BinaryOp::Mod),
        _ => None,
    }
}

/// The position after an optional token of kind `k` at `p`.
pub open spec fn opt_past(toks: Seq<Token>, p: int, k: TokenKind) -> int {
    if toks[p].kind == k {
        p + 1
    } else {
        p
    }
}

/// An expression at minimum strength `m` ends before the token at `q`: no binary operator of
/// strength `m` or more, and no `?` at strength 0.
pub open spec fn expr_stops(toks: Seq<Token>, q: int, m: nat) -> bool {
    &&& binary_prec(toks[q].kind) == 0 || binary_prec(toks[q].kind) < m
    &&& m == 0 ==> toks[q].kind != TokenKind::Question
}

/// The replication count written by a number lexeme (its value when it fits a `usize`, else 1).
pub open spec fn replication_count_spec(w: Seq<char>) -> nat {
    match parse_unsigned_spec(w, u128::MAX as nat) {
        Some(v) => if v <= usize::MAX {
            v
        } else {
            1
        },
        None => 1,
    }
}

/// Where the parts of a parsed expression end: the token positions of its operators and
/// brackets (`ends`) and the spans of its sub-expressions (`parts`).
pub struct Span {
    pub ends: Seq<int>,
    pub parts: Seq<Span>,
}

/// The tokens from `p` to `q` are an expression `e` at minimum strength `m`, ended there.
pub open spec fn parses_expr(toks: Seq<Token>, p: int, m: nat, e: Expr, q: int) -> bool {
    exists|sp: Span| #[trigger] expr_rel(toks, p, m, e, sp, q)
}

/// [`parses_expr`], with the positions of the parts given by `sp`.
pub open spec fn expr_rel(toks: Seq<Token>, p: int, m: nat, e: Expr, sp: Span, q: int) -> bool
    decreases e, toks.len() - p, 5int,
{
    expr_chain(toks, p, m, e, sp, q) && expr_stops(toks, q, m)
}

/// The tokens from `p` to `q` are an expression `e` at minimum strength `m`: a prefix
/// expression, or `left op right` with `op` of strength `m` or more and `right` at one more
/// than `op`'s strength (so that operators of one strength group to the left), or, at strength
/// 0, `cond ? then : else` (the `:` may be missing).
pub open spec fn expr_chain(toks: Seq<Token>, p: int, m: nat, e: Expr, sp: Span, q: int) -> bool
    decreases e, toks.len() - p, 4int,
{
    if sp.ends.len() == 0 {
        sp.parts.len() == 1 && unary_rel(toks, p, e, sp.parts[0], q)
    } else {
        match e {
            Expr::Binary { op, left, right } => {
                let k = sp.ends[0];
                &&& sp.ends.len() == 1 && sp.parts.len() == 2
                &&& expr_chain(toks, p, m, *left, sp.parts[0], k)
                &&& binary_op_of(toks[k].kind) == Some(op)
                &&& binary_prec(toks[k].kind) >= m
                &&& expr_rel(toks, k + 1, binary_prec(toks[k].kind) + 1, *right, sp.parts[1], q)
            },
            Expr::Ternary { cond, then_expr, else_expr } => {
                let k1 = sp.ends[0];
                &&& m == 0 && sp.ends.len() == 2 && sp.parts.len() == 3
                &&& expr_chain(toks, p, 0, *cond, sp.parts[0], k1)
                &&& toks[k1].kind == TokenKind::Question
                &&& expr_rel(toks, k1 + 1, 0, *then_expr, sp.parts[1], sp.ends[1])
                &&& expr_rel(toks, opt_past(toks, sp.ends[1], TokenKind::Colon), 0, *else_expr, sp.parts[2], q)
            },
            _ => false,
        }
    }
}

/// The tokens from `p` to `q` are `e` with its prefix `~`, `!`, `-`, around a primary with its
/// selects.
pub open spec fn unary_rel(toks: Seq<Token>, p: int, e: Expr, sp: Span, q: int) -> bool
    decreases e, toks.len() - p, 3int,
{
    if toks[p].kind == TokenKind::Tilde {
        e matches Expr::Unary { op, operand } && op == UnaryOp::Not && unary_rel(toks, p + 1, *operand, sp, q)
    } else if toks[p].kind == TokenKind::Bang {
        e matches Expr::Unary { op, operand } && op == UnaryOp::LogNot && unary_rel(toks, p + 1, *operand, sp, q)
    } else if toks[p].kind == TokenKind::Minus {
        e matches Expr::Unary { op, operand } && op == UnaryOp::Neg && unary_rel(toks, p + 1, *operand, sp, q)
    } else {
        select_rel(toks, p, e, sp, q) && toks[q].kind != TokenKind::LBracket
    }
}

/// The tokens from `p` to `q` are an atom followed by `[msb]` / `[msb:lsb]` selects
/// (the `]` may be missing), the last select outermost.
pub open spec fn select_rel(toks: Seq<Token>, p: int, e: Expr, sp: Span, q: int) -> bool
    decreases e, toks.len() - p, 2int,
{
    if sp.ends.len() == 0 {
        sp.parts.len() == 1 && atom_rel(toks, p, e, sp.parts[0], q)
    } else {
        match e {
            Expr::Index { base, msb, lsb } => {
                let k = sp.ends[0];
                let k2 = sp.ends[1];
                let k3 = sp.ends[2];
                &&& sp.ends.len() == 3 && sp.parts.len() == 3
                &&& select_rel(toks, p, *base, sp.parts[0], k)
                &&& toks[k].kind == TokenKind::LBracket
                &&& expr_rel(toks, k + 1, 0, *msb, sp.parts[1], k2)
                &&& match lsb {
                    Some(l) => toks[k2].kind == TokenKind::Colon && expr_rel(toks, k2 + 1, 0, *l, sp.parts[2], k3),
                    None => toks[k2].kind != TokenKind::Colon && k3 == k2,
                }
                &&& q == opt_past(toks, k3, TokenKind::RBracket)
            },
            _ => false,
        }
    }
}

/// The tokens from `p` to `q` are an atom: a name, `$signed(..)` / `$clog2(..)`, a number, a
/// parenthesised expression, a replication `{n{..}}` (`n` copies), a concatenation, or any
/// other single token (read as the name `<unsupported>`). Closing brackets may be missing.
pub open spec fn atom_rel(toks: Seq<Token>, p: int, e: Expr, sp: Span, q: int) -> bool
    decreases e, toks.len() - p, 1int,
{
    let t = toks[p];
    if t.kind == TokenKind::Identifier {
        if t.lexeme@ == "$signed"@ && toks[p + 1].kind == TokenKind::LParen {
            e matches Expr::Signed(a) && sp.ends.len() == 1 && sp.parts.len() == 1 && expr_rel(
                toks,
                p + 2,
                0,
                *a,
                sp.parts[0],
                sp.ends[0],
            ) && q == opt_past(toks, sp.ends[0], TokenKind::RParen)
        } else if t.lexeme@ == "$clog2"@ && toks[p + 1].kind == TokenKind::LParen {
            e matches Expr::Clog2(a) && sp.ends.len() == 1 && sp.parts.len() == 1 && expr_rel(
                toks,
                p + 2,
                0,
                *a,
                sp.parts[0],
                sp.ends[0],
            ) && q == opt_past(toks, sp.ends[0], TokenKind::RParen)
        } else {
            e == Expr::Ident(t.lexeme) && q == p + 1
        }
    } else if t.kind == TokenKind::Number {
        e == Expr::Number(t.lexeme) && q == p + 1
    } else if t.kind == TokenKind::LParen {
        p + 1 < toks.len() && sp.ends.len() == 1 && sp.parts.len() == 1 && expr_rel(toks, p + 1, 0, e, sp.parts[0], sp.ends[0])
            && q == opt_past(toks, sp.ends[0], TokenKind::RParen)
    } else if t.kind == TokenKind::LBrace {
        if toks[p + 1].kind == TokenKind::Number && p + 2 < toks.len() && toks[p + 2].kind == TokenKind::LBrace {
            e matches Expr::Concat(v) && v@.len() == replication_count_spec(toks[p + 1].lexeme@) && sp.ends.len() == 1
                && p + 3 <= sp.ends[0] && q == opt_past(toks, opt_past(toks, sp.ends[0], TokenKind::RBrace), TokenKind::RBrace)
        } else if toks[p + 1].kind == TokenKind::RBrace {
            e matches Expr::Concat(v) && v@.len() == 0 && q == p + 2
        } else {
            e matches Expr::Concat(v) && sp.ends.len() == 1 && sp.parts.len() == 1 && list_rel(
                toks,
                p + 1,
                v@,
                sp.parts[0],
                sp.ends[0],
            ) && toks[sp.ends[0]].kind != TokenKind::Comma && q == opt_past(toks, sp.ends[0], TokenKind::RBrace)
        }
    } else {
        e matches Expr::Ident(s) && s@ == "<unsupported>"@ && q == (if t.kind == TokenKind::Eof {
            p
        } else {
            p + 1
        })
    }
}

/// The tokens from `p` to `q` are the expressions `es`, separated by commas.
pub open spec fn list_rel(toks: Seq<Token>, p: int, es: Seq<Expr>, sp: Span, q: int) -> bool
    decreases es, toks.len() - p, 0int,
{
    if es.len() == 0 {
        false
    } else if es.len() == 1 {
        sp.parts.len() == 1 && expr_rel(toks, p, 0, es[0], sp.parts[0], q)
    } else {
        let k = sp.ends[0];
        &&& sp.ends.len() == 1 && sp.parts.len() == 2
        &&& list_rel(toks, p, es.drop_last(), sp.parts[0], k)
        &&& toks[k].kind == TokenKind::Comma
        &&& expr_rel(toks, k + 1, 0, es.last(), sp.parts[1], q)
    }
}

/// A direction keyword of a port.
pub open spec fn is_direction(k: TokenKind) -> bool {
    k == TokenKind::Input || k == TokenKind::Output || k == TokenKind::Inout
}

/// The header port declared from `s` on, named at `n`, after the port `prev` (`None` for the
/// first): a direction keyword, then an optional `wire` / `reg` / `logic`, an optional
/// `signed` and an optional `[msb:lsb]` (or `[msb]`; the `]` may be missing) whose width
/// is evaluated under the header parameters `params`; or a bare name, which keeps the
/// direction of the port before and its width (1 when it has no direction).
#[verifier::opaque]
pub open spec fn port_entry(toks: Seq<Token>, s: int, params: Seq<(String, Expr)>, prev: Option<Port>, port: Port, n: int) -> bool {
    &&& toks[n].kind == TokenKind::Identifier
    &&& port.name@ == toks[n].lexeme@
    &&& if is_direction(toks[s].kind) {
        let c = port_range_at(toks, s);
        &&& (port.direction matches Some(x) && x@ == toks[s].lexeme@)
        &&& if toks[c].kind == TokenKind::LBracket {
            exists|msb: Expr, k2: int|
                #[trigger] parses_expr(toks, c + 1, 0, msb, k2) && port_range_end(toks, k2, params, msb, port.width, n)
        } else {
            n == c && port.width == 1
        }
    } else {
        &&& toks[s].kind == TokenKind::Identifier
        &&& n == s
        &&& port.direction == (match prev {
            Some(pp) => pp.direction,
            None => None,
        })
        &&& port.width == (match prev {
            Some(pp) => if pp.direction is Some {
                pp.width
            } else {
                1
            },
            None => 1,
        })
    }
}

/// Where the range of a header port whose direction keyword stands at `s` would start: after
/// the keyword, an optional `wire` / `reg` / `logic` and an optional `signed`.
pub open spec fn port_range_at(toks: Seq<Token>, s: int) -> int {
    let a = s + 1;
    let b = if toks[a].kind == TokenKind::Wire || toks[a].kind == TokenKind::Reg || toks[a].kind == TokenKind::Logic {
        a + 1
    } else {
        a
    };
    if toks[b].kind == TokenKind::Signed {
        b + 1
    } else {
        b
    }
}

/// After the bound `msb` of a header range, ended at `k2`: an optional `:lsb` (else the range
/// is `[msb]`), then an optional `]` before the name at `n`; `width` is the range's width
/// under `params`.
pub open spec fn port_range_end(toks: Seq<Token>, k2: int, params: Seq<(String, Expr)>, msb: Expr, width: usize, n: int) -> bool {
    if toks[k2].kind == TokenKind::Colon {
        exists|lsb: Expr, k3: int|
            #[trigger] parses_expr(toks, k2 + 1, 0, lsb, k3) && n == opt_past(toks, k3, TokenKind::RBracket) && width
                == port_width_spec(port_bound_spec(msb, params) as int, port_bound_spec(lsb, params) as int)
    } else {
        n == opt_past(toks, k2, TokenKind::RBracket) && width == port_width_spec(
            port_bound_spec(msb, params) as int,
            port_bound_spec(msb, params) as int,
        )
    }
}

/// The header ports `ports` declared from `s0` on, separated by commas: port `i` starts at
/// `starts[i]` and is named at `names[i]`.
pub open spec fn ports_rel(
    toks: Seq<Token>,
    s0: int,
    params: Seq<(String, Expr)>,
    ports: Seq<Port>,
    starts: Seq<int>,
    names: Seq<int>,
) -> bool {
    &&& starts.len() == ports.len() && names.len() == ports.len()
    &&& ports.len() > 0 ==> starts[0] == s0
    &&& forall|i: int|
        0 <= i < ports.len() ==> port_entry(
            toks,
            starts[i],
            params,
            if i == 0 {
                None
            } else {
                Some(ports[i - 1])
            },
            #[trigger] ports[i],
            names[i],
        )
    &&& forall|i: int|
        0 <= i < ports.len() - 1 ==> toks[#[trigger] names[i] + 1].kind == TokenKind::Comma && starts[i + 1] == names[i] + 2
}

/// One more header port, declared after a comma behind the last one (or first at `s0`).
proof fn lemma_ports_push(
    toks: Seq<Token>,
    s0: int,
    params: Seq<(String, Expr)>,
    ports: Seq<Port>,
    starts: Seq<int>,
    names: Seq<int>,
    port: Port,
    s: int,
    n: int,
)
    requires
        ports_rel(toks, s0, params, ports, starts, names),
        port_entry(toks, s, params, if ports.len() == 0 { None } else { Some(ports.last()) }, port, n),
        ports.len() == 0 ==> s == s0,
        ports.len() > 0 ==> toks[names.last() + 1].kind == TokenKind::Comma && s == names.last() + 2,
    ensures
        ports_rel(toks, s0, params, ports.push(port), starts.push(s), names.push(n)),
{
    let ps = ports.push(port);
    let ss = starts.push(s);
    let ns = names.push(n);
    assert forall|i: int| 0 <= i < ps.len() implies port_entry(
        toks,
        ss[i],
        params,
        if i == 0 {
            None
        } else {
            Some(ps[i - 1])
        },
        #[trigger] ps[i],
        ns[i],
    ) by {
        if i < ports.len() {
            assert(ps[i] == ports[i] && ss[i] == starts[i] && ns[i] == names[i]);
            if i > 0 {
                assert(ps[i - 1] == ports[i - 1]);
            }
        } else if i > 0 {
            assert(ps[i - 1] == ports.last());
        }
    }
    assert forall|i: int| 0 <= i < ps.len() - 1 implies toks[#[trigger] ns[i] + 1].kind == TokenKind::Comma && ss[i + 1]
        == ns[i] + 2 by {
        if i + 1 < ports.len() {
            assert(ns[i] == names[i] && ss[i + 1] == starts[i + 1]);
        } else {
            assert(ns[i] == names.last());
        }
    }
}

/// Where a header port list from `s0` with `n` ports named at `names` stops: after a name with
/// no comma after it, before a `)` (or the end of the text) where the next port would start,
/// or where an error has been recorded.
pub open spec fn ports_end(toks: Seq<Token>, s0: int, n: nat, names: Seq<int>, ds: Seq<Diagnostic>) -> bool {
    let next = if n == 0 {
        s0
    } else {
        names.last() + 2
    };
    ||| n > 0 && toks[names.last() + 1].kind != TokenKind::Comma
    ||| toks[next].kind == TokenKind::RParen || toks[next].kind == TokenKind::Eof
    ||| has_error(ds)
}

/// The header port list from `s0` on declares `ports` ([`ports_rel`]) and stops where
/// [`ports_end`] says.
#[verifier::opaque]
pub open spec fn header_ports_parsed(
    toks: Seq<Token>,
    s0: int,
    params: Seq<(String, Expr)>,
    ports: Seq<Port>,
    ds: Seq<Diagnostic>,
) -> bool {
    exists|starts: Seq<int>, names: Seq<int>|
        #[trigger] ports_rel(toks, s0, params, ports, starts, names) && ports_end(toks, s0, ports.len(), names, ds)
}

/// The `always` block at `j`, ending at `z`: `always #delay statement` (the delay first in
/// `body`, then the statement if it gives one, from `sp.ends[0]` on), or `always`, an optional
/// `@(...)` sensitivity (`*` without one), and a statement block from `sp.ends[0]` on.
pub open spec fn always_rel(toks: Seq<Token>, j: int, sensitivity: Sensitivity, body: Seq<CstStmt>, sp: Span, z: int) -> bool {
    let b = sp.ends[0];
    &&& sp.ends.len() == 1 && sp.parts.len() == 1 && j + 1 <= b
    &&& if toks[j + 1].kind == TokenKind::Hash {
        &&& sensitivity is Star
        &&& 1 <= body.len() <= 2
        &&& body[0] == CstStmt::Delay(lexeme_delay_spec(delay_text_at(toks, j + 2)))
        &&& body.len() == 1 ==> stmt_skipped(toks, b, z)
        &&& body.len() == 2 ==> stmt_rel(toks, b, body[1], sp.parts[0], z)
    } else {
        &&& toks[j + 1].kind != TokenKind::At ==> sensitivity is Star && b == j + 1
        &&& block_rel(toks, b, body, sp.parts[0], z)
    }
}

/// The continuous assignment at `j`, ending at `z`: `assign`, the target register's name and
/// its select ([`target_rel`]), an optional `=`, the expression, then tokens skipped to the `;`.
pub open spec fn assign_rel(toks: Seq<Token>, j: int, target: AssignTarget, expr: Expr, sp: Span, z: int) -> bool {
    let t = sp.ends[0];
    let k = sp.ends[1];
    &&& sp.ends.len() == 2 && sp.parts.len() == 2
    &&& toks[j + 1].kind == TokenKind::Identifier && target_reg(target)@ == toks[j + 1].lexeme@
    &&& target_rel(toks, j + 1, target_reg(target), target, sp.parts[0], t)
    &&& expr_rel(toks, opt_past(toks, t, TokenKind::Eq), 0, expr, sp.parts[1], k)
    &&& k <= z
}

/// One step of a module body at `j`, ending at `z` and giving the items `out`: an `initial`
/// block (its statements as [`block_rel`] gives them), an `always` block ([`always_rel`]), a `genvar`
/// statement (nothing), a `generate` loop, a declaration, a continuous assignment, a
/// `parameter` / `localparam` list or an instance (at most one item each, of its kind), or
/// any other token, skipped.
pub open spec fn item_step(toks: Seq<Token>, j: int, out: Seq<CstModuleItem>, sp: Span, z: int) -> bool {
    let k = toks[j].kind;
    &&& j < z
    &&& if k == TokenKind::Initial {
        out.len() == 1 && (out[0] matches CstModuleItem::Initial { body } && block_rel(toks, j + 1, body@, sp, z))
    } else if k == TokenKind::Always {
        out.len() == 1 && (out[0] matches CstModuleItem::Always { sensitivity, body } && always_rel(
            toks,
            j,
            sensitivity,
            body@,
            sp,
            z,
        ))
    } else if k == TokenKind::Genvar {
        out.len() == 0
    } else if k == TokenKind::Generate {
        out.len() <= 1 && forall|i: int| 0 <= i < out.len() ==> #[trigger] out[i] is GenerateFor
    } else if k == TokenKind::Input || k == TokenKind::Output || k == TokenKind::Inout || k == TokenKind::Wire || k
        == TokenKind::Reg || k == TokenKind::Integer || k == TokenKind::Logic {
        out.len() <= 1 && forall|i: int| 0 <= i < out.len() ==> #[trigger] out[i] is NetDecl
    } else if k == TokenKind::Assign {
        out.len() <= 1 && (out.len() == 1 ==> (out[0] matches CstModuleItem::Assign { target, expr } && assign_rel(
            toks,
            j,
            target,
            expr,
            sp,
            z,
        )))
    } else if k == TokenKind::Parameter || k == TokenKind::Localparam {
        out.len() <= 1 && forall|i: int| 0 <= i < out.len() ==> #[trigger] out[i] is LocalParam
    } else if k == TokenKind::Identifier {
        out.len() <= 1 && forall|i: int| 0 <= i < out.len() ==> #[trigger] out[i] is Instance
    } else {
        out.len() == 0 && z == j + 1
    }
}

/// The module body from `a` to `z` gives `items`: steps ([`item_step`]) one after the other,
/// none at `endmodule`, their items in order.
pub open spec fn items_rel(toks: Seq<Token>, a: int, items: Seq<CstModuleItem>, sp: Span, z: int) -> bool
    decreases sp,
{
    if sp.ends.len() == 0 {
        z == a && items.len() == 0
    } else if sp.ends.len() == 2 && sp.parts.len() == 2 {
        let j = sp.ends[0];
        let n = sp.ends[1];
        &&& a <= j < z && 0 <= n <= items.len()
        &&& toks[j].kind != TokenKind::Endmodule && toks[j].kind != TokenKind::Eof
        &&& items_rel(toks, a, items.take(n), sp.parts[0], j)
        &&& item_step(toks, j, items.skip(n), sp.parts[1], z)
    } else {
        false
    }
}

/// The items of `m` are the ones a module body of `toks` gives ([`items_rel`]), up to an
/// `endmodule` (or the end of the text).
pub open spec fn module_items_parsed(toks: Seq<Token>, m: CstModule) -> bool {
    exists|a: int, sp: Span, z: int|
        #[trigger] items_rel(toks, a, m.items@, sp, z) && (toks[z].kind == TokenKind::Endmodule || toks[z].kind
            == TokenKind::Eof)
}

/// [`header_ports_parsed`] stays true when more diagnostics are recorded.
proof fn lemma_header_ports_kept(
    toks: Seq<Token>,
    s0: int,
    params: Seq<(String, Expr)>,
    ports: Seq<Port>,
    a: Seq<Diagnostic>,
    b: Seq<Diagnostic>,
)
    requires
        header_ports_parsed(toks, s0, params, ports, a),
        kept_diagnostics(a, b),
    ensures
        header_ports_parsed(toks, s0, params, ports, b),
{
    reveal(header_ports_parsed);
    let (starts, names) = choose|starts: Seq<int>, names: Seq<int>|
        #[trigger] ports_rel(toks, s0, params, ports, starts, names) && ports_end(toks, s0, ports.len(), names, a);
    if has_error(a) {
        lemma_has_error_kept(a, b);
    }
    assert(ports_rel(toks, s0, params, ports, starts, names) && ports_end(toks, s0, ports.len(), names, b));
}

/// A `module` keyword followed by a name stands at `p`.
pub open spec fn module_keyword_at(toks: Seq<Token>, p: int) -> bool {
    0 <= p && p + 2 < toks.len() && toks[p].kind == TokenKind::Module && toks[p + 1].kind == TokenKind::Identifier
}

/// The module `m` was parsed from a `module` keyword of `toks`: it is named by the identifier
/// after the keyword, and where a `(` follows the name its header ports are the ones the port
/// list declares ([`header_ports_parsed`], with the diagnostics `ds`).
#[verifier::opaque]
pub open spec fn module_header_parsed(toks: Seq<Token>, m: CstModule, ds: Seq<Diagnostic>) -> bool {
    exists|p: int|
        #[trigger] module_keyword_at(toks, p) && m.name@ == toks[p + 1].lexeme@ && (toks[p + 2].kind == TokenKind::LParen ==> header_ports_parsed(
            toks,
            p + 3,
            m.module_parameters@,
            m.ports@,
            ds,
        ))
}

/// [`module_header_parsed`] stays true when more diagnostics are recorded.
proof fn lemma_module_header_kept(toks: Seq<Token>, m: CstModule, a: Seq<Diagnostic>, b: Seq<Diagnostic>)
    requires
        module_header_parsed(toks, m, a),
        kept_diagnostics(a, b),
    ensures
        module_header_parsed(toks, m, b),
{
    reveal(module_header_parsed);
    let p = choose|p: int|
        #[trigger] module_keyword_at(toks, p) && m.name@ == toks[p + 1].lexeme@ && (toks[p + 2].kind == TokenKind::LParen ==> header_ports_parsed(
            toks,
            p + 3,
            m.module_parameters@,
            m.ports@,
            a,
        ));
    if toks[p + 2].kind == TokenKind::LParen {
        lemma_header_ports_kept(toks, p + 3, m.module_parameters@, m.ports@, a, b);
    }
}

/// The assignment target for the register `reg` (named at `p`) spelled from `p + 1` to `q`:
/// the whole register, `[index]` or `[msb:lsb]` (the `]` may be missing).
pub open spec fn target_rel(toks: Seq<Token>, p: int, reg: String, t: AssignTarget, sp: Span, q: int) -> bool {
    if toks[p + 1].kind == TokenKind::LBracket {
        let k1 = sp.ends[0];
        &&& sp.ends.len() == 2 && sp.parts.len() == 2
        &&& if toks[k1].kind == TokenKind::Colon {
            t matches AssignTarget::PartSelect { reg: r, msb, lsb } && r == reg && expr_rel(toks, p + 2, 0, msb, sp.parts[0], k1)
                && expr_rel(toks, k1 + 1, 0, lsb, sp.parts[1], sp.ends[1]) && q == opt_past(toks, sp.ends[1], TokenKind::RBracket)
        } else {
            t matches AssignTarget::BitSelect { reg: r, index } && r == reg && expr_rel(toks, p + 2, 0, index, sp.parts[0], k1)
                && q == opt_past(toks, k1, TokenKind::RBracket)
        }
    } else {
        t == AssignTarget::Whole(reg) && q == p + 1
    }
}

/// The statement at `p` gives nothing and ends at `q`: a
/// name not followed by `=` or `<=` after its target (skipped to the next `;`), a `for` whose
/// loop or step variable is missing, or any other token that starts no statement (skipped).
pub open spec fn stmt_skipped(toks: Seq<Token>, p: int, q: int) -> bool {
    let k = toks[p].kind;
    &&& p < q || (k == TokenKind::Eof && q == p)
    &&& k != TokenKind::Hash && k != TokenKind::If && k != TokenKind::Case
    &&& !(k == TokenKind::Identifier && is_system_name(toks[p].lexeme@))
    &&& !(k == TokenKind::Identifier || k == TokenKind::For) ==> q == (if k == TokenKind::Eof {
        p
    } else {
        p + 1
    })
}

/// Statements from `a` on, with skipped ones ([`stmt_skipped`]) between them, give `ss`; the
/// last of them ends at `z` (`z == a` when there is none).
pub open spec fn stmts_from(toks: Seq<Token>, a: int, ss: Seq<CstStmt>, sp: Span, z: int) -> bool
    decreases ss, toks.len() - a, 1int,
{
    if ss.len() == 0 {
        z == a
    } else {
        let m1 = sp.ends[0];
        let m2 = sp.ends[1];
        &&& sp.ends.len() == 2 && sp.parts.len() == 2
        &&& stmts_from(toks, a, ss.drop_last(), sp.parts[0], m1)
        &&& skips_only(toks, m1, m2)
        &&& toks[m2].kind != TokenKind::End && toks[m2].kind != TokenKind::Eof
        &&& stmt_rel(toks, m2, ss.last(), sp.parts[1], z)
    }
}

/// From `a` to `z` there are only statements that give nothing, none at `end`.
pub open spec fn skips_only(toks: Seq<Token>, a: int, z: int) -> bool {
    exists|ps: Seq<int>|
        #![trigger ps.len()]
        ps.len() > 0 && ps[0] == a && ps.last() == z && forall|i: int|
            0 <= i < ps.len() - 1 ==> toks[#[trigger] ps[i]].kind != TokenKind::End && toks[ps[i]].kind != TokenKind::Eof
                && stmt_skipped(toks, ps[i], ps[i + 1])
}

/// The entries of a `case` from `a` to `z`: `value [:] block` entries, which give the arms
/// `arms` in order, and `default [:] block` entries. `mode` 0: there is no `default` entry;
/// 1: the last `default` entry's block spans `dpos`; 2: `default` entries are allowed and
/// only their positions are given (a later one replaces them).
pub open spec fn case_entries(toks: Seq<Token>, arms: Seq<CaseArm>, a: int, mode: int, dpos: (int, int), sp: Span, z: int) -> bool
    decreases arms, toks.len() - a, z - a,
{
    if sp.ends.len() == 0 {
        z == a && arms.len() == 0 && mode != 1
    } else {
        let m = sp.ends[0];
        &&& sp.ends.len() == 2 && sp.parts.len() == 3
        &&& a <= m < z
        &&& toks[m].kind != TokenKind::Endcase && toks[m].kind != TokenKind::Eof
        &&& if toks[m].kind == TokenKind::Default {
            let b = opt_past(toks, m + 1, TokenKind::Colon);
            &&& mode != 0
            &&& b <= z
            &&& (mode == 1 ==> dpos == (b, z))
            &&& case_entries(toks, arms, a, 2, dpos, sp.parts[0], m)
        } else {
            let k = sp.ends[1];
            &&& arms.len() > 0
            &&& expr_rel(toks, m, 0, arms.last().value, sp.parts[2], k)
            &&& block_rel(toks, opt_past(toks, k, TokenKind::Colon), arms.last().body@, sp.parts[1], z)
            &&& case_entries(toks, arms.drop_last(), a, mode, dpos, sp.parts[0], m)
        }
    }
}

/// [`case_entries`] in any mode holds in mode 2, whatever the `default` position.
proof fn lemma_case_entries_replaced(
    toks: Seq<Token>,
    arms: Seq<CaseArm>,
    a: int,
    mode: int,
    dpos: (int, int),
    sp: Span,
    z: int,
    dpos2: (int, int),
)
    requires
        case_entries(toks, arms, a, mode, dpos, sp, z),
    ensures
        case_entries(toks, arms, a, 2, dpos2, sp, z),
    decreases arms.len(), z - a,
{
    if sp.ends.len() != 0 {
        let m = sp.ends[0];
        if toks[m].kind == TokenKind::Default {
            lemma_case_entries_replaced(toks, arms, a, 2, dpos, sp.parts[0], m, dpos2);
        } else {
            lemma_case_entries_replaced(toks, arms.drop_last(), a, mode, dpos, sp.parts[0], m, dpos2);
        }
    }
}

/// The statement block from `p` to `q` gives `ss`: `begin` statements `end` (the `end` may be
/// missing at the end of the text), or one statement (none when it gives nothing).
pub open spec fn block_rel(toks: Seq<Token>, p: int, ss: Seq<CstStmt>, sp: Span, q: int) -> bool
    decreases ss, toks.len() - p, 2int,
{
    if toks[p].kind == TokenKind::Begin {
        let m = sp.ends[0];
        let e = sp.ends[1];
        &&& sp.ends.len() == 2 && sp.parts.len() == 1 && p + 1 < toks.len()
        &&& stmts_from(toks, p + 1, ss, sp.parts[0], m)
        &&& skips_only(toks, m, e)
        &&& (toks[e].kind == TokenKind::End || toks[e].kind == TokenKind::Eof)
        &&& q == opt_past(toks, e, TokenKind::End)
    } else if ss.len() == 1 {
        sp.parts.len() == 1 && stmt_rel(toks, p, ss[0], sp.parts[0], q)
    } else {
        ss.len() == 0 && stmt_skipped(toks, p, q)
    }
}

/// The statement `st` is spelled from `p` to `q`: `#delay ;`, a system task call with its
/// arguments, an `if` with its condition and blocks, a `case` with its selector, a `for` loop
/// with its header and body, or an assignment `target = rhs ;` / `target <= rhs ;` (each `;`,
/// `(` and `)` may be missing). The end of a `#delay` is not given.
pub open spec fn stmt_rel(toks: Seq<Token>, p: int, st: CstStmt, sp: Span, q: int) -> bool
    decreases st, toks.len() - p, 0int,
{
    let k = toks[p].kind;
    if k == TokenKind::Hash {
        st == CstStmt::Delay(lexeme_delay_spec(delay_text_at(toks, p + 1))) && sp.ends.len() == 1 && p < sp.ends[0] && q
            == opt_past(toks, sp.ends[0], TokenKind::Semicolon)
    } else if k == TokenKind::Identifier && is_system_name(toks[p].lexeme@) {
        st matches CstStmt::SystemTask { name, args } && name == toks[p].lexeme && sp.ends.len() == 2 && (if toks[p + 1].kind
            == TokenKind::LParen {
            if toks[p + 2].kind == TokenKind::RParen {
                args@.len() == 0 && sp.ends[0] == p + 3
            } else {
                sp.parts.len() == 1 && list_rel(toks, p + 2, args@, sp.parts[0], sp.ends[1]) && toks[sp.ends[1]].kind
                    != TokenKind::Comma && sp.ends[0] == opt_past(toks, sp.ends[1], TokenKind::RParen)
            }
        } else {
            args@.len() == 0 && sp.ends[0] == p + 1
        }) && q == opt_past(toks, sp.ends[0], TokenKind::Semicolon)
    } else if k == TokenKind::If {
        st matches CstStmt::IfElse { cond, then_body, else_body } && sp.ends.len() == 2 && sp.parts.len() == 3 && expr_rel(
            toks,
            opt_past(toks, p + 1, TokenKind::LParen),
            0,
            cond,
            sp.parts[0],
            sp.ends[0],
        ) && block_rel(toks, opt_past(toks, sp.ends[0], TokenKind::RParen), then_body@, sp.parts[1], sp.ends[1]) && (if toks[sp.ends[1]].kind
            == TokenKind::Else {
            block_rel(toks, sp.ends[1] + 1, else_body@, sp.parts[2], q)
        } else {
            else_body@.len() == 0 && q == sp.ends[1]
        })
    } else if k == TokenKind::Case {
        let k1 = sp.ends[0];
        let e = sp.ends[1];
        let mode = sp.ends[2];
        &&& sp.ends.len() == 5 && sp.parts.len() == 3
        &&& st matches CstStmt::Case { expr, arms, default }
        &&& expr_rel(toks, opt_past(toks, p + 1, TokenKind::LParen), 0, expr, sp.parts[0], k1)
        &&& (mode == 0 || mode == 1)
        &&& case_entries(toks, arms@, opt_past(toks, k1, TokenKind::RParen), mode, (sp.ends[3], sp.ends[4]), sp.parts[1], e)
        &&& (mode == 0 ==> default@.len() == 0)
        &&& (mode == 1 ==> block_rel(toks, sp.ends[3], default@, sp.parts[2], sp.ends[4]))
        &&& (toks[e].kind == TokenKind::Endcase || toks[e].kind == TokenKind::Eof)
        &&& q == opt_past(toks, e, TokenKind::Endcase)
    } else if k == TokenKind::For {
        let c0 = opt_past(toks, p + 1, TokenKind::LParen);
        let c1 = opt_past(toks, c0 + 1, TokenKind::Eq);
        let k1 = sp.ends[0];
        let c2 = opt_past(toks, k1, TokenKind::Semicolon);
        let k2 = sp.ends[1];
        let c3 = opt_past(toks, k2, TokenKind::Semicolon);
        let c4 = opt_past(toks, c3 + 1, TokenKind::Eq);
        let k3 = sp.ends[2];
        st matches CstStmt::For { init_var, init_val, cond, step_var, step_expr, body } && sp.ends.len() == 3 && sp.parts.len()
            == 4 && toks[c0].kind == TokenKind::Identifier && init_var@ == toks[c0].lexeme@ && expr_rel(
            toks,
            c1,
            0,
            init_val,
            sp.parts[0],
            k1,
        ) && expr_rel(toks, c2, 0, cond, sp.parts[1], k2) && toks[c3].kind == TokenKind::Identifier && step_var@
            == toks[c3].lexeme@ && expr_rel(toks, c4, 0, step_expr, sp.parts[2], k3) && block_rel(
            toks,
            opt_past(toks, k3, TokenKind::RParen),
            body@,
            sp.parts[3],
            q,
        )
    } else if k == TokenKind::Identifier {
        let t = sp.ends[0];
        &&& sp.ends.len() == 2 && sp.parts.len() == 2
        &&& match st {
            CstStmt::NonBlockingAssign { target, rhs } => target_rel(toks, p, toks[p].lexeme, target, sp.parts[0], t)
                && toks[t].kind == TokenKind::Le && expr_rel(toks, t + 1, 0, rhs, sp.parts[1], sp.ends[1]),
            CstStmt::BlockingAssign { target, rhs } => target_rel(toks, p, toks[p].lexeme, target, sp.parts[0], t)
                && toks[t].kind == TokenKind::Eq && expr_rel(toks, t + 1, 0, rhs, sp.parts[1], sp.ends[1]),
            _ => false,
        }
        &&& q == opt_past(toks, sp.ends[1], TokenKind::Semicolon)
    } else {
        false
    }
}

/// A parsed expression ends at or after where it starts, and after it unless it starts at the
/// end of the text.
proof fn lemma_expr_rel_end(toks: Seq<Token>, p: int, m: nat, e: Expr, sp: Span, q: int)
    requires
        expr_rel(toks, p, m, e, sp, q),
    ensures
        p <= q,
        toks[p].kind != TokenKind::Eof ==> p < q,
    decreases e, toks.len() - p, 5int,
{
    lemma_chain_end(toks, p, m, e, sp, q);
}

proof fn lemma_chain_end(toks: Seq<Token>, p: int, m: nat, e: Expr, sp: Span, q: int)
    requires
        expr_chain(toks, p, m, e, sp, q),
    ensures
        p <= q,
        toks[p].kind != TokenKind::Eof ==> p < q,
    decreases e, toks.len() - p, 4int,
{
    if sp.ends.len() == 0 {
        lemma_unary_end(toks, p, e, sp.parts[0], q);
    } else {
        match e {
            Expr::Binary { op, left, right } => {
                let k = sp.ends[0];
                lemma_chain_end(toks, p, m, *left, sp.parts[0], k);
                lemma_expr_rel_end(toks, k + 1, binary_prec(toks[k].kind) + 1, *right, sp.parts[1], q);
            },
            Expr::Ternary { cond, then_expr, else_expr } => {
                let k1 = sp.ends[0];
                lemma_chain_end(toks, p, 0, *cond, sp.parts[0], k1);
                lemma_expr_rel_end(toks, k1 + 1, 0, *then_expr, sp.parts[1], sp.ends[1]);
                lemma_expr_rel_end(toks, opt_past(toks, sp.ends[1], TokenKind::Colon), 0, *else_expr, sp.parts[2], q);
            },
            _ => {},
        }
    }
}

proof fn lemma_unary_end(toks: Seq<Token>, p: int, e: Expr, sp: Span, q: int)
    requires
        unary_rel(toks, p, e, sp, q),
    ensures
        p <= q,
        toks[p].kind != TokenKind::Eof ==> p < q,
    decreases e, toks.len() - p, 3int,
{
    let k = toks[p].kind;
    if k == TokenKind::Tilde || k == TokenKind::Bang || k == TokenKind::Minus {
        match e {
            Expr::Unary { op, operand } => {
                lemma_unary_end(toks, p + 1, *operand, sp, q);
            },
            _ => {},
        }
    } else {
        lemma_select_end(toks, p, e, sp, q);
    }
}

proof fn lemma_select_end(toks: Seq<Token>, p: int, e: Expr, sp: Span, q: int)
    requires
        select_rel(toks, p, e, sp, q),
    ensures
        p <= q,
        toks[p].kind != TokenKind::Eof ==> p < q,
    decreases e, toks.len() - p, 2int,
{
    if sp.ends.len() == 0 {
        lemma_atom_end(toks, p, e, sp.parts[0], q);
    } else {
        match e {
            Expr::Index { base, msb, lsb } => {
                let k = sp.ends[0];
                lemma_select_end(toks, p, *base, sp.parts[0], k);
                lemma_expr_rel_end(toks, k + 1, 0, *msb, sp.parts[1], sp.ends[1]);
                match lsb {
                    Some(l) => {
                        lemma_expr_rel_end(toks, sp.ends[1] + 1, 0, *l, sp.parts[2], sp.ends[2]);
                    },
                    None => {},
                }
            },
            _ => {},
        }
    }
}

proof fn lemma_atom_end(toks: Seq<Token>, p: int, e: Expr, sp: Span, q: int)
    requires
        atom_rel(toks, p, e, sp, q),
    ensures
        p <= q,
        toks[p].kind != TokenKind::Eof ==> p < q,
    decreases e, toks.len() - p, 1int,
{
    let t = toks[p];
    if t.kind == TokenKind::Identifier {
        if (t.lexeme@ == "$signed"@ || t.lexeme@ == "$clog2"@) && toks[p + 1].kind == TokenKind::LParen {
            match e {
                Expr::Signed(a) => {
                    lemma_expr_rel_end(toks, p + 2, 0, *a, sp.parts[0], sp.ends[0]);
                },
                Expr::Clog2(a) => {
                    lemma_expr_rel_end(toks, p + 2, 0, *a, sp.parts[0], sp.ends[0]);
                },
                _ => {},
            }
        }
    } else if t.kind == TokenKind::LParen {
        lemma_expr_rel_end(toks, p + 1, 0, e, sp.parts[0], sp.ends[0]);
    } else if t.kind == TokenKind::LBrace {
        if !(toks[p + 1].kind == TokenKind::Number && p + 2 < toks.len() && toks[p + 2].kind == TokenKind::LBrace)
            && toks[p + 1].kind != TokenKind::RBrace {
            match e {
                Expr::Concat(v) => {
                    lemma_list_end(toks, p + 1, v@, sp.parts[0], sp.ends[0]);
                },
                _ => {},
            }
        }
    }
}

proof fn lemma_list_end(toks: Seq<Token>, p: int, es: Seq<Expr>, sp: Span, q: int)
    requires
        list_rel(toks, p, es, sp, q),
    ensures
        p <= q,
    decreases es, toks.len() - p, 0int,
{
    if es.len() == 1 {
        lemma_expr_rel_end(toks, p, 0, es[0], sp.parts[0], q);
    } else if es.len() > 1 {
        let k = sp.ends[0];
        lemma_list_end(toks, p, es.drop_last(), sp.parts[0], k);
        lemma_expr_rel_end(toks, k + 1, 0, es.last(), sp.parts[1], q);
    }
}

/// An operand token: a number or a name.
pub open spec fn is_operand_token(t: Token) -> bool {
    t.kind == TokenKind::Number || t.kind == TokenKind::Identifier
}

/// The expression an operand token stands for.
pub open spec fn operand_expr(t: Token) -> Expr {
    if t.kind == TokenKind::Number {
        Expr::Number(t.lexeme)
    } else {
        Expr::Ident(t.lexeme)
    }
}

/// A token that ends an expression: no binary operator, `?`, `[` or `(`.
pub open spec fn ends_expr(t: Token) -> bool {
    binary_prec(t.kind) == 0 && t.kind != TokenKind::Question && t.kind != TokenKind::LBracket && t.kind
        != TokenKind::LParen
}

/// An operand token not followed by `[` or `(` is a primary of its own, one token long.
proof fn lemma_operand_select(toks: Seq<Token>, i: int, e: Expr, sp: Span, q: int)
    requires
        select_rel(toks, i, e, sp, q),
        is_operand_token(toks[i]),
        toks[i + 1].kind != TokenKind::LBracket,
        toks[i + 1].kind != TokenKind::LParen,
    ensures
        e == operand_expr(toks[i]),
        q == i + 1,
    decreases e,
{
    if sp.ends.len() == 0 {
        assert(atom_rel(toks, i, e, sp.parts[0], q));
    } else {
        match e {
            Expr::Index { base, .. } => {
                assert(select_rel(toks, i, *base, sp.parts[0], sp.ends[0]));
                lemma_operand_select(toks, i, *base, sp.parts[0], sp.ends[0]);
            },
            _ => {},
        }
    }
}

/// An expression that starts at such an operand and ends right after it is that operand.
proof fn lemma_operand_chain(toks: Seq<Token>, i: int, m: nat, e: Expr, sp: Span)
    requires
        expr_chain(toks, i, m, e, sp, i + 1),
        is_operand_token(toks[i]),
        toks[i + 1].kind != TokenKind::LBracket,
        toks[i + 1].kind != TokenKind::LParen,
    ensures
        e == operand_expr(toks[i]),
{
    if sp.ends.len() == 0 {
        assert(unary_rel(toks, i, e, sp.parts[0], i + 1));
        assert(select_rel(toks, i, e, sp.parts[0], i + 1));
        lemma_operand_select(toks, i, e, sp.parts[0], i + 1);
    } else {
        lemma_chain_end(toks, i, m, e, sp, i + 1);
        match e {
            Expr::Binary { op, left, right } => {
                let k = sp.ends[0];
                lemma_chain_end(toks, i, m, *left, sp.parts[0], k);
                lemma_expr_rel_end(toks, k + 1, binary_prec(toks[k].kind) + 1, *right, sp.parts[1], i + 1);
            },
            Expr::Ternary { cond, then_expr, else_expr } => {
                let k1 = sp.ends[0];
                lemma_chain_end(toks, i, 0, *cond, sp.parts[0], k1);
                lemma_expr_rel_end(toks, k1 + 1, 0, *then_expr, sp.parts[1], sp.ends[1]);
                lemma_expr_rel_end(toks, opt_past(toks, sp.ends[1], TokenKind::Colon), 0, *else_expr, sp.parts[2], i + 1);
            },
            _ => {},
        }
    }
}

/// A token that is a binary operator binds at strength 1 or more and is no operand and no `?`.
proof fn lemma_operator_token(k: TokenKind)
    requires
        binary_op_of(k) is Some,
    ensures
        binary_prec(k) >= 1,
        k != TokenKind::Question,
        k != TokenKind::Number && k != TokenKind::Identifier,
        k != TokenKind::LBracket && k != TokenKind::LParen,
{
}

/// The tokens `b op c` (operands at `j`, `j + 2`, an operator at `j + 1`, an ending token at
/// `j + 3`), read as an expression at a minimum strength `m` of 1 or more, are `b op c`, and
/// `op` binds at least at `m`.
proof fn lemma_one_op_chain(toks: Seq<Token>, j: int, m: nat, e: Expr, sp: Span)
    requires
        expr_chain(toks, j, m, e, sp, j + 3),
        m >= 1,
        is_operand_token(toks[j]),
        binary_op_of(toks[j + 1].kind) is Some,
        is_operand_token(toks[j + 2]),
        ends_expr(toks[j + 3]),
    ensures
        e == (Expr::Binary {
            op: binary_op_of(toks[j + 1].kind)->0,
            left: Box::new(operand_expr(toks[j])),
            right: Box::new(operand_expr(toks[j + 2])),
        }),
        binary_prec(toks[j + 1].kind) >= m,
{
    lemma_operator_token(toks[j + 1].kind);
    if sp.ends.len() == 0 {
        assert(unary_rel(toks, j, e, sp.parts[0], j + 3));
        assert(select_rel(toks, j, e, sp.parts[0], j + 3));
        lemma_operand_select(toks, j, e, sp.parts[0], j + 3);
    } else {
        match e {
            Expr::Binary { op, left, right } => {
                let k = sp.ends[0];
                assert(expr_chain(toks, j, m, *left, sp.parts[0], k));
                lemma_chain_end(toks, j, m, *left, sp.parts[0], k);
                assert(expr_rel(toks, k + 1, binary_prec(toks[k].kind) + 1, *right, sp.parts[1], j + 3));
                lemma_expr_rel_end(toks, k + 1, binary_prec(toks[k].kind) + 1, *right, sp.parts[1], j + 3);
                assert(k == j + 1);
                lemma_operand_chain(toks, j, m, *left, sp.parts[0]);
                assert(expr_chain(toks, j + 2, binary_prec(toks[k].kind) + 1, *right, sp.parts[1], j + 3));
                lemma_operand_chain(toks, j + 2, binary_prec(toks[k].kind) + 1, *right, sp.parts[1]);
            },
            _ => {},
        }
    }
}

/// Two binary operators between three operands group by strength: the tokens
/// `a op1 b op2 c` followed by a token that ends an expression parse as `a op1 (b op2 c)` when
/// `op2` binds more strongly than `op1`, and as `(a op1 b) op2 c` otherwise (operators of
/// equal strength group to the left).
pub proof fn law_two_operator_grouping(toks: Seq<Token>, p: int, e: Expr)
    requires
        is_operand_token(toks[p]),
        binary_op_of(toks[p + 1].kind) is Some,
        is_operand_token(toks[p + 2]),
        binary_op_of(toks[p + 3].kind) is Some,
        is_operand_token(toks[p + 4]),
        ends_expr(toks[p + 5]),
        parses_expr(toks, p, 0, e, p + 5),
    ensures
        binary_prec(toks[p + 3].kind) > binary_prec(toks[p + 1].kind) ==> e == (Expr::Binary {
            op: binary_op_of(toks[p + 1].kind)->0,
            left: Box::new(operand_expr(toks[p])),
            right: Box::new(
                Expr::Binary {
                    op: binary_op_of(toks[p + 3].kind)->0,
                    left: Box::new(operand_expr(toks[p + 2])),
                    right: Box::new(operand_expr(toks[p + 4])),
                },
            ),
        }),
        binary_prec(toks[p + 3].kind) <= binary_prec(toks[p + 1].kind) ==> e == (Expr::Binary {
            op: binary_op_of(toks[p + 3].kind)->0,
            left: Box::new(
                Expr::Binary {
                    op: binary_op_of(toks[p + 1].kind)->0,
                    left: Box::new(operand_expr(toks[p])),
                    right: Box::new(operand_expr(toks[p + 2])),
                },
            ),
            right: Box::new(operand_expr(toks[p + 4])),
        }),
{
    let sp = choose|sp: Span| #[trigger] expr_rel(toks, p, 0, e, sp, p + 5);
    lemma_operator_token(toks[p + 1].kind);
    lemma_operator_token(toks[p + 3].kind);
    assert(expr_chain(toks, p, 0, e, sp, p + 5));
    if sp.ends.len() == 0 {
        assert(unary_rel(toks, p, e, sp.parts[0], p + 5));
        assert(select_rel(toks, p, e, sp.parts[0], p + 5));
        lemma_operand_select(toks, p, e, sp.parts[0], p + 5);
    } else {
        match e {
            Expr::Binary { op, left, right } => {
                let k = sp.ends[0];
                let pk = binary_prec(toks[k].kind);
                assert(expr_chain(toks, p, 0, *left, sp.parts[0], k));
                lemma_chain_end(toks, p, 0, *left, sp.parts[0], k);
                assert(expr_rel(toks, k + 1, pk + 1, *right, sp.parts[1], p + 5));
                lemma_expr_rel_end(toks, k + 1, pk + 1, *right, sp.parts[1], p + 5);
                assert(k == p + 1 || k == p + 3);
                assert(expr_chain(toks, k + 1, pk + 1, *right, sp.parts[1], p + 5));
                if k == p + 1 {
                    lemma_operand_chain(toks, p, 0, *left, sp.parts[0]);
                    lemma_one_op_chain(toks, p + 2, pk + 1, *right, sp.parts[1]);
                } else {
                    lemma_operand_chain(toks, p + 4, pk + 1, *right, sp.parts[1]);
                    let sl = sp.parts[0];
                    let l = *left;
                    if sl.ends.len() == 0 {
                        assert(unary_rel(toks, p, l, sl.parts[0], p + 3));
                        assert(select_rel(toks, p, l, sl.parts[0], p + 3));
                        lemma_operand_select(toks, p, l, sl.parts[0], p + 3);
                    } else {
                        match l {
                            Expr::Binary { op: op2, left: l2, right: r2 } => {
                                let k2 = sl.ends[0];
                                let pk2 = binary_prec(toks[k2].kind);
                                assert(expr_chain(toks, p, 0, *l2, sl.parts[0], k2));
                                lemma_chain_end(toks, p, 0, *l2, sl.parts[0], k2);
                                assert(expr_rel(toks, k2 + 1, pk2 + 1, *r2, sl.parts[1], p + 3));
                                lemma_expr_rel_end(toks, k2 + 1, pk2 + 1, *r2, sl.parts[1], p + 3);
                                assert(k2 == p + 1);
                                lemma_operand_chain(toks, p, 0, *l2, sl.parts[0]);
                                assert(expr_chain(toks, p + 2, pk2 + 1, *r2, sl.parts[1], p + 3));
                                lemma_operand_chain(toks, p + 2, pk2 + 1, *r2, sl.parts[1]);
                            },
                            Expr::Ternary { cond, then_expr, else_expr } => {
                                let k1 = sl.ends[0];
                                assert(expr_chain(toks, p, 0, *cond, sl.parts[0], k1));
                                lemma_chain_end(toks, p, 0, *cond, sl.parts[0], k1);
                                assert(expr_rel(toks, k1 + 1, 0, *then_expr, sl.parts[1], sl.ends[1]));
                                lemma_expr_rel_end(toks, k1 + 1, 0, *then_expr, sl.parts[1], sl.ends[1]);
                                assert(expr_rel(toks, opt_past(toks, sl.ends[1], TokenKind::Colon), 0, *else_expr, sl.parts[2], p + 3));
                                lemma_expr_rel_end(toks, opt_past(toks, sl.ends[1], TokenKind::Colon), 0, *else_expr, sl.parts[2], p + 3);
                            },
                            _ => {},
                        }
                    }
                }
            },
            Expr::Ternary { cond, then_expr, else_expr } => {
                let k1 = sp.ends[0];
                assert(expr_chain(toks, p, 0, *cond, sp.parts[0], k1));
                lemma_chain_end(toks, p, 0, *cond, sp.parts[0], k1);
                assert(expr_rel(toks, k1 + 1, 0, *then_expr, sp.parts[1], sp.ends[1]));
                lemma_expr_rel_end(toks, k1 + 1, 0, *then_expr, sp.parts[1], sp.ends[1]);
                assert(expr_rel(toks, opt_past(toks, sp.ends[1], TokenKind::Colon), 0, *else_expr, sp.parts[2], p + 5));
                lemma_expr_rel_end(toks, opt_past(toks, sp.ends[1], TokenKind::Colon), 0, *else_expr, sp.parts[2], p + 5);
            },
            _ => {},
        }
    }
}

/// Operator strengths follow IEEE 1364, from the strongest: `* / %`, then `+ -`, the shifts,
/// the relations `< <= > >=`, `== !=`, `&`, `^`, `|`, `&&` and last `||`; the operators of one
/// group bind equally, and `?`, `:` and every other token do not bind as a binary operator.
pub proof fn law_operator_strength()
    ensures
        binary_prec(TokenKind::Star) == binary_prec(TokenKind::Slash),
        binary_prec(TokenKind::Star) == binary_prec(TokenKind::Percent),
        binary_prec(TokenKind::Plus) == binary_prec(TokenKind::Minus),
        binary_prec(TokenKind::Plus) < binary_prec(TokenKind::Star),
        binary_prec(TokenKind::Shl) == binary_prec(TokenKind::Shr),
        binary_prec(TokenKind::Shl) == binary_prec(TokenKind::Ashr),
        binary_prec(TokenKind::Shl) < binary_prec(TokenKind::Plus),
        binary_prec(TokenKind::Lt) == binary_prec(TokenKind::Le),
        binary_prec(TokenKind::Lt) == binary_prec(TokenKind::Gt),
        binary_prec(TokenKind::Lt) == binary_prec(TokenKind::Ge),
        binary_prec(TokenKind::Lt) < binary_prec(TokenKind::Shl),
        binary_prec(TokenKind::EqEq) == binary_prec(TokenKind::Ne),
        binary_prec(TokenKind::EqEq) < binary_prec(TokenKind::Lt),
        binary_prec(TokenKind::Amp) < binary_prec(TokenKind::EqEq),
        binary_prec(TokenKind::Caret) < binary_prec(TokenKind::Amp),
        binary_prec(TokenKind::Pipe) < binary_prec(TokenKind::Caret),
        binary_prec(TokenKind::LogAnd) < binary_prec(TokenKind::Pipe),
        binary_prec(TokenKind::LogOr) < binary_prec(TokenKind::LogAnd),
        0 < binary_prec(TokenKind::LogOr),
        binary_prec(TokenKind::Question) == 0,
        binary_prec(TokenKind::Colon) == 0,
        forall|k: TokenKind| (binary_op_of(k) is Some) == (binary_prec(k) > 0),
{
}

/// `*` binds more strongly than `+`: for any operands, `a + b * c` parses as `a + (b * c)`.
pub proof fn law_mul_binds_tighter_than_add(toks: Seq<Token>, p: int, e: Expr)
    requires
        is_operand_token(toks[p]),
        toks[p + 1].kind == TokenKind::Plus,
        is_operand_token(toks[p + 2]),
        toks[p + 3].kind == TokenKind::Star,
        is_operand_token(toks[p + 4]),
        ends_expr(toks[p + 5]),
        parses_expr(toks, p, 0, e, p + 5),
    ensures
        e == (Expr::Binary {
            op: BinaryOp::Add,
            left: Box::new(operand_expr(toks[p])),
            right: Box::new(
                Expr::Binary {
                    op: BinaryOp::Mul,
                    left: Box::new(operand_expr(toks[p + 2])),
                    right: Box::new(operand_expr(toks[p + 4])),
                },
            ),
        }),
{
    law_two_operator_grouping(toks, p, e);
}

/// `*` binds more strongly than `+` on its left too: `a * b + c` parses as `(a * b) + c`.
pub proof fn law_mul_before_add(toks: Seq<Token>, p: int, e: Expr)
    requires
        is_operand_token(toks[p]),
        toks[p + 1].kind == TokenKind::Star,
        is_operand_token(toks[p + 2]),
        toks[p + 3].kind == TokenKind::Plus,
        is_operand_token(toks[p + 4]),
        ends_expr(toks[p + 5]),
        parses_expr(toks, p, 0, e, p + 5),
    ensures
        e == (Expr::Binary {
            op: BinaryOp::Add,
            left: Box::new(
                Expr::Binary {
                    op: BinaryOp::Mul,
                    left: Box::new(operand_expr(toks[p])),
                    right: Box::new(operand_expr(toks[p + 2])),
                },
            ),
            right: Box::new(operand_expr(toks[p + 4])),
        }),
{
    law_two_operator_grouping(toks, p, e);
}

/// Operators of one strength group to the left: `a - b + c` parses as `(a - b) + c`.
pub proof fn law_same_strength_groups_left(toks: Seq<Token>, p: int, e: Expr)
    requires
        is_operand_token(toks[p]),
        toks[p + 1].kind == TokenKind::Minus,
        is_operand_token(toks[p + 2]),
        toks[p + 3].kind == TokenKind::Plus,
        is_operand_token(toks[p + 4]),
        ends_expr(toks[p + 5]),
        parses_expr(toks, p, 0, e, p + 5),
    ensures
        e == (Expr::Binary {
            op: BinaryOp::Add,
            left: Box::new(
                Expr::Binary {
                    op: BinaryOp::Sub,
                    left: Box::new(operand_expr(toks[p])),
                    right: Box::new(operand_expr(toks[p + 2])),
                },
            ),
            right: Box::new(operand_expr(toks[p + 4])),
        }),
{
    law_two_operator_grouping(toks, p, e);
}

/// Comparisons bind more weakly than arithmetic and more strongly than `&&`: `a < b + c`
/// parses as `a < (b + c)` and `a && b == c` as `a && (b == c)`.
pub proof fn law_comparison_strength(toks: Seq<Token>, p: int, e: Expr)
    requires
        is_operand_token(toks[p]),
        (toks[p + 1].kind == TokenKind::Lt && toks[p + 3].kind == TokenKind::Plus) || (toks[p + 1].kind
            == TokenKind::LogAnd && toks[p + 3].kind == TokenKind::EqEq),
        is_operand_token(toks[p + 2]),
        is_operand_token(toks[p + 4]),
        ends_expr(toks[p + 5]),
        parses_expr(toks, p, 0, e, p + 5),
    ensures
        e matches Expr::Binary { op, left, right } && *left == operand_expr(toks[p]) && (op == BinaryOp::Lt || op
            == BinaryOp::LogAnd) && (*right matches Expr::Binary { op: o2, .. } && (o2 == BinaryOp::Add || o2
            == BinaryOp::Eq)),
{
    law_two_operator_grouping(toks, p, e);
}

/// `e` without its outer `[..]` selects.
pub open spec fn index_base(e: Expr) -> Expr
    decreases e,
{
    match e {
        Expr::Index { base, .. } => index_base(*base),
        _ => e,
    }
}

/// `e` is `inner` under exactly `n` `[..]` selects.
pub open spec fn selects_over(e: Expr, inner: Expr, n: nat) -> bool
    decreases n,
{
    if n == 0 {
        e == inner
    } else {
        match e {
            Expr::Index { base, .. } => selects_over(*base, inner, (n - 1) as nat),
            _ => false,
        }
    }
}

/// The name of the first parameter of a `#( [parameter] NAME = ...` list starting at `p`.
pub open spec fn first_header_param(toks: Seq<Token>, p: int) -> Option<Seq<char>> {
    if 0 <= p && p + 2 < toks.len() && toks[p].kind == TokenKind::Hash && toks[p + 1].kind == TokenKind::LParen {
        let q = if toks[p + 2].kind == TokenKind::Parameter { p + 3 } else { p + 2 };
        if q + 1 < toks.len() && toks[q].kind == TokenKind::Identifier && toks[q + 1].kind == TokenKind::Eq {
            Some(toks[q].lexeme@)
        } else {
            None
        }
    } else {
        None
    }
}

/// The names of `v` are, in order, the lexemes of identifier tokens of `toks` at the
/// increasing positions `idx`, all in `[lo, hi)`.
pub open spec fn names_at(v: Seq<(String, Expr)>, toks: Seq<Token>, idx: Seq<int>, lo: int, hi: int) -> bool {
    &&& idx.len() == v.len()
    &&& forall|i: int|
        0 <= i < v.len() ==> lo <= #[trigger] idx[i] < hi && toks[idx[i]].kind == TokenKind::Identifier
            && toks[idx[i]].lexeme@ == v[i].0@
    &&& forall|i: int, j: int| 0 <= i < j < v.len() ==> idx[i] < idx[j]
}

/// The first port of an ANSI port list whose `(` stands at `q`, where the list opens with
/// `name`, `dir name` or `dir net name` (`dir` one of `input`, `output`, `inout`; `net` one of
/// `wire`, `reg`, `logic`): its direction's text (none for a bare name) and its name. Such a
/// port is one bit wide.
pub open spec fn first_plain_port(toks: Seq<Token>, q: int) -> Option<(Option<Seq<char>>, Seq<char>)> {
    if 0 <= q && q + 1 < toks.len() {
        let k = toks[q + 1].kind;
        if k == TokenKind::Identifier {
            Some((None, toks[q + 1].lexeme@))
        } else if (k == TokenKind::Input || k == TokenKind::Output || k == TokenKind::Inout) && q + 2 < toks.len() {
            let k2 = toks[q + 2].kind;
            let r = if k2 == TokenKind::Wire || k2 == TokenKind::Reg || k2 == TokenKind::Logic { q + 3 } else { q + 2 };
            if r < toks.len() && toks[r].kind == TokenKind::Identifier {
                Some((Some(toks[q + 1].lexeme@), toks[r].lexeme@))
            } else {
                None
            }
        } else {
            None
        }
    } else {
        None
    }
}

/// The name after the first `module` keyword of `toks`, where an identifier stands there.
pub open spec fn first_module_name(toks: Seq<Token>) -> Option<Seq<char>> {
    match first_kind_from(toks, 0, TokenKind::Module) {
        Some(q) => if q + 1 < toks.len() && toks[q + 1].kind == TokenKind::Identifier {
            Some(toks[q + 1].lexeme@)
        } else {
            None
        },
        None => None,
    }
}

/// `name` is the identifier right after a `module` keyword in `toks`.
#[verifier::opaque]
pub open spec fn declared_module_name(toks: Seq<Token>, name: Seq<char>) -> bool {
    exists|p: int|
        #![trigger toks[p]]
        0 <= p < toks.len() - 1 && toks[p].kind == TokenKind::Module && toks[p + 1].kind == TokenKind::Identifier
            && name == toks[p + 1].lexeme@
}

/// The edge of a sensitivity entry starting at token `p`, and where its signal name stands.
pub open spec fn sens_edge_at(toks: Seq<Token>, p: int) -> (EdgeKind, int) {
    if toks[p].kind == TokenKind::Posedge {
        (EdgeKind::Posedge, p + 1)
    } else if toks[p].kind == TokenKind::Negedge {
        (EdgeKind::Negedge, p + 1)
    } else {
        (EdgeKind::Level, p)
    }
}

/// Token `p` separates sensitivity entries: `or` or `,`.
pub open spec fn sens_separator(toks: Seq<Token>, p: int) -> bool {
    0 <= p < toks.len() && ((toks[p].kind == TokenKind::Identifier && toks[p].lexeme@ == "or"@) || toks[p].kind
        == TokenKind::Comma)
}

/// The entries (edge, signal) of a sensitivity list from token `p` on: `[posedge|negedge]
/// name`, joined by `or` or `,`; the list stops at the first entry without a name, or after an
/// entry that no separator follows.
pub open spec fn sens_entries(toks: Seq<Token>, p: int) -> Seq<(EdgeKind, Seq<char>)>
    decreases toks.len() - p,
{
    if !(0 <= p < toks.len()) {
        seq![]
    } else {
        let (edge, q) = sens_edge_at(toks, p);
        if q >= toks.len() || toks[q].kind != TokenKind::Identifier {
            seq![]
        } else if sens_separator(toks, q + 1) {
            seq![(edge, toks[q].lexeme@)] + sens_entries(toks, q + 2)
        } else {
            seq![(edge, toks[q].lexeme@)]
        }
    }
}

/// The (edge, signal) view of sensitivity entries.
pub open spec fn sens_view(es: Seq<SensEdge>) -> Seq<(EdgeKind, Seq<char>)> {
    es.map_values(|e: SensEdge| (e.edge, e.signal@))
}

/// Index of the first token of class `k` at or after `p`.
pub open spec fn first_kind_from(toks: Seq<Token>, p: int, k: TokenKind) -> Option<int>
    decreases toks.len() - p,
{
    if p < 0 || p >= toks.len() {
        None
    } else if toks[p].kind == k {
        Some(p)
    } else {
        first_kind_from(toks, p + 1, k)
    }
}

/// The first token of kind `k` from `p` on stands at `p` or later.
proof fn lemma_first_kind_from(toks: Seq<Token>, p: int, k: TokenKind)
    ensures
        first_kind_from(toks, p, k) matches Some(q) ==> p <= q < toks.len() && toks[q].kind == k,
    decreases toks.len() - p,
{
    if 0 <= p < toks.len() && toks[p].kind != k {
        lemma_first_kind_from(toks, p + 1, k);
    }
}

/// No token of kind `k` stands between `p` and the first one from `p` on.
proof fn lemma_first_kind_before(toks: Seq<Token>, p: int, k: TokenKind, j: int)
    requires
        p <= j,
    ensures
        first_kind_from(toks, p, k) matches Some(q) ==> (j < q ==> toks[j].kind != k),
    decreases j - p,
{
    if p < j && 0 <= p < toks.len() && toks[p].kind != k {
        lemma_first_kind_before(toks, p + 1, k, j);
    }
}

/// An error among diagnostics stays when more are recorded after them.
proof fn lemma_has_error_kept(a: Seq<Diagnostic>, b: Seq<Diagnostic>)
    requires
        kept_diagnostics(a, b),
        has_error(a),
    ensures
        has_error(b),
{
    let i = choose|i: int| 0 <= i < a.len() && (#[trigger] a[i]).severity == Severity::Error;
    assert(b[i] == a[i]);
}

/// `after` is a later state of the parser `before` (same input, cursor not moved back, the
/// diagnostics recorded so far kept).
pub open spec fn advanced(before: Parser, after: Parser) -> bool {
    &&& after.wf()
    &&& after.tokens@ == before.tokens@
    &&& after.file == before.file
    &&& after.pos >= before.pos
    &&& kept_diagnostics(before.diagnostics@, after.diagnostics@)
}

/// `after` starts with the diagnostics `before`.
pub open spec fn kept_diagnostics(before: Seq<Diagnostic>, after: Seq<Diagnostic>) -> bool {
    &&& before.len() <= after.len()
    &&& forall|i: int| 0 <= i < before.len() ==> #[trigger] after[i] == before[i]
}

/// Like [`advanced`], and the cursor moved unless it already stood on `Eof`.
pub open spec fn progressed(before: Parser, after: Parser) -> bool {
    &&& advanced(before, after)
    &&& (before.cur_kind() != TokenKind::Eof ==> after.pos > before.pos)
}

impl<'a> Parser<'a> {
    /// The cursor stands on a token of a well-formed token list.
    pub open spec fn wf(&self) -> bool {
        &&& tokens_wf(self.tokens@)
        &&& self.pos < self.tokens@.len()
    }

    /// Class of the token under the cursor.
    pub open spec fn cur_kind(&self) -> TokenKind {
        self.tokens@[self.pos as int].kind
    }

    /// Tokens left from the cursor on (the termination measure).
    pub open spec fn remaining(&self) -> nat {
        (self.tokens@.len() - self.pos) as nat
    }

    /// A parser at the first token.
    pub fn new(file: &'a SourceFile, tokens: &'a [Token]) -> (p: Self)
        requires
            tokens_wf(tokens@),
        ensures
            p.wf(),
            p.pos == 0,
            p.tokens@ == tokens@,
            p.file == file,
            p.diagnostics@.len() == 0,
    {
        Parser { file, tokens, pos: 0, diagnostics: Vec::new() }
    }

    fn current(&self) -> (t: &Token)
        requires
            self.wf(),
        ensures
            *t == self.tokens@[self.pos as int],
    {
        &self.tokens[self.pos]
    }

    fn kind(&self) -> (k: TokenKind)
        requires
            self.wf(),
        ensures
            k == self.cur_kind(),
    {
        self.tokens[self.pos].kind
    }

    /// Moves to the next token, staying on `Eof`.
    fn bump(&mut self)
        requires
            old(self).wf(),
        ensures
            progressed(*old(self), *final(self)),
            final(self).diagnostics@ == old(self).diagnostics@,
            old(self).cur_kind() != TokenKind::Eof ==> final(self).pos == old(self).pos + 1,
            old(self).cur_kind() == TokenKind::Eof ==> final(self).pos == old(self).pos,
    {
        if self.pos < self.tokens.len() - 1 {
            self.pos = self.pos + 1;
        }
    }

    /// Consumes the current token when it has class `kind`.
    fn match_kind(&mut self, kind: TokenKind) -> (b: bool)
        requires
            old(self).wf(),
        ensures
            advanced(*old(self), *final(self)),
            b == (old(self).cur_kind() == kind),
            b && kind != TokenKind::Eof ==> final(self).pos == old(self).pos + 1,
            !b ==> final(self).pos == old(self).pos,
            final(self).diagnostics@ == old(self).diagnostics@,
    {
        if self.kind() == kind {
            self.bump();
            true
        } else {
            false
        }
    }

    /// Whether the current token's text is `lit`.
    fn lexeme_is(&self, lit: &str) -> (b: bool)
        requires
            self.wf(),
        ensures
            b == (self.tokens@[self.pos as int].lexeme@ == lit@),
    {
        self.tokens[self.pos].lexeme == lit.to_owned()
    }

    /// Whether the current token's text starts with `$` (a system task or function).
    fn lexeme_is_system(&self) -> (b: bool)
        requires
            self.wf(),
        ensures
            b == (self.tokens@[self.pos as int].lexeme@.len() > 0 && self.tokens@[self.pos as int].lexeme@[0] == '$'),
    {
        let s = self.tokens[self.pos].lexeme.as_str();
        s.unicode_len() > 0 && s.get_char(0) == '$'
    }

    /// Records an error at the current token, then moves past it.
    fn error_at_current(&mut self, message: &str)
        requires
            old(self).wf(),
        ensures
            progressed(*old(self), *final(self)),
            final(self).diagnostics@.len() == old(self).diagnostics@.len() + 1,
            final(self).diagnostics@.last().message@ == message@,
            final(self).diagnostics@.last().severity == Severity::Error,
    {
        let off = self.tokens[self.pos].offset;
        let (line, col) = offset_to_line_col(self.file.content.as_str(), off);
        self.diagnostics.push(Diagnostic {
            message: message.to_owned(),
            severity: Severity::Error,
            line,
            column: col,
            path: self.file.path.clone(),
        });
        self.bump();
    }

    /// Consumes an identifier and returns its text; otherwise records `message`.
    fn expect_identifier(&mut self, message: &str) -> (r: Option<String>)
        requires
            old(self).wf(),
        ensures
            progressed(*old(self), *final(self)),
            (old(self).cur_kind() == TokenKind::Identifier) == r is Some,
            r matches Some(n) ==> n@ == old(self).tokens@[old(self).pos as int].lexeme@,
            r is Some ==> final(self).diagnostics@ == old(self).diagnostics@,
            r is Some ==> final(self).pos == old(self).pos + 1,
            r is None ==> final(self).diagnostics@.len() == old(self).diagnostics@.len() + 1
                && final(self).diagnostics@.last().severity == Severity::Error,
    {
        if self.kind() == TokenKind::Identifier {
            let name = self.tokens[self.pos].lexeme.clone();
            self.bump();
            Some(name)
        } else {
            self.error_at_current(message);
            None
        }
    }

    /// Expression with binary operators of precedence at least `min_prec` (Pratt parsing;
    /// `||` 1, `&&` 2, `|` 3, `^` 4, `&` 5, `== !=` 6, `< <= > >=` 7, shifts 8, `+ -` 9,
    /// `* / %` 10) and, at `min_prec == 0`, trailing `? :` conditionals.
    fn parse_expression(&mut self, min_prec: u8) -> (e: Expr)
        requires
            old(self).wf(),
            min_prec <= 11,
        ensures
            progressed(*old(self), *final(self)),
            binary_prec(final(self).cur_kind()) == 0 || binary_prec(final(self).cur_kind()) < min_prec,
            min_prec == 0 ==> final(self).cur_kind() != TokenKind::Question,
            parses_expr(old(self).tokens@, old(self).pos as int, min_prec as nat, e, final(self).pos as int),
        decreases old(self).remaining(), 3nat,
    {
        let ghost toks = self.tokens@;
        let ghost p0 = self.pos as int;
        let ghost m = min_prec as nat;
        let mut left = self.parse_unary();
        let ghost su = choose|sp: Span| #[trigger] unary_rel(toks, p0, left, sp, self.pos as int);
        let ghost mut sl = Span { ends: Seq::empty(), parts: seq![su] };
        assert(expr_chain(toks, p0, m, left, sl, self.pos as int));
        loop
            invariant
                progressed(*old(self), *self),
                min_prec <= 11,
                toks == old(self).tokens@,
                p0 == old(self).pos,
                m == min_prec as nat,
                expr_chain(toks, p0, m, left, sl, self.pos as int),
            ensures
                progressed(*old(self), *self),
                binary_prec(self.cur_kind()) == 0 || binary_prec(self.cur_kind()) < min_prec,
                min_prec == 0 ==> self.cur_kind() != TokenKind::Question,
                expr_chain(toks, p0, m, left, sl, self.pos as int),
            decreases self.remaining(),
        {
            let k = self.kind();
            let (op, prec): (BinaryOp, u8) = match k {
                TokenKind::LogOr => (BinaryOp::LogOr, 1),
                TokenKind::LogAnd => (BinaryOp::LogAnd, 2),
                TokenKind::Pipe => (BinaryOp::Or, 3),
                TokenKind::Caret => (BinaryOp::Xor, 4),
                TokenKind::Amp => (BinaryOp::And, 5),
                TokenKind::EqEq => (BinaryOp::Eq, 6),
                TokenKind::Ne => (BinaryOp::Ne, 6),
                TokenKind::Lt => (BinaryOp::Lt, 7),
                TokenKind::Le => (BinaryOp::Le, 7),
                TokenKind::Gt => (BinaryOp::Gt, 7),
                TokenKind::Ge => (BinaryOp::Ge, 7),
                TokenKind::Shl => (BinaryOp::Shl, 8),
                TokenKind::Shr => (BinaryOp::Shr, 8),
                TokenKind::Ashr => (BinaryOp::Ashr, 8),
                TokenKind::Plus => (BinaryOp::Add, 9),
                TokenKind::Minus => (BinaryOp::Sub, 9),
                TokenKind::Star => (BinaryOp::Mul, 10),
                TokenKind::Slash => (BinaryOp::Div, 10),
                TokenKind::Percent => (BinaryOp::Mod, 10),
                TokenKind::Question => {
                    if min_prec > 0 {
                        break;
                    }
                    let ghost k1 = self.pos as int;
                    let ghost cond0 = left;
                    self.bump();
                    let then_expr = self.parse_expression(0);
                    let ghost k2 = self.pos as int;
                    let _ = self.match_kind(TokenKind::Colon);
                    let else_expr = self.parse_expression(0);
                    let ghost q = self.pos as int;
                    let ghost st = choose|sp: Span| #[trigger] expr_rel(toks, k1 + 1, 0, then_expr, sp, k2);
                    let ghost sf = choose|sp: Span| #[trigger] expr_rel(toks, opt_past(toks, k2, TokenKind::Colon), 0, else_expr, sp, q);
                    let ghost sc = sl;
                    left = Expr::Ternary {
                        cond: Box::new(left),
                        then_expr: Box::new(then_expr),
                        else_expr: Box::new(else_expr),
                    };
                    proof {
                        sl = Span { ends: seq![k1, k2], parts: seq![sc, st, sf] };
                        assert(expr_chain(toks, p0, m, left, sl, q));
                    }
                    continue;
                },
                _ => {
                    break;
                },
            };
            if prec < min_prec {
                break;
            }
            let ghost k = self.pos as int;
            let ghost left0 = left;
            self.bump();
            let right = self.parse_expression(prec + 1);
            let ghost q = self.pos as int;
            let ghost sr = choose|sp: Span| #[trigger] expr_rel(toks, k + 1, (prec + 1) as nat, right, sp, q);
            let ghost sa = sl;
            proof {
                assert(binary_op_of(toks[k].kind) == Some(op) && binary_prec(toks[k].kind) == prec as nat);
            }
            left = Expr::Binary { op, left: Box::new(left), right: Box::new(right) };
            proof {
                sl = Span { ends: seq![k], parts: seq![sa, sr] };
                assert(expr_chain(toks, p0, m, left, sl, q));
            }
        }
        assert(expr_rel(toks, p0, m, left, sl, self.pos as int));
        left
    }

    /// Prefix `~`, `!`, `-` applied to a primary.
    fn parse_unary(&mut self) -> (e: Expr)
        requires
            old(self).wf(),
        ensures
            progressed(*old(self), *final(self)),
            old(self).cur_kind() == TokenKind::Tilde ==> (e matches Expr::Unary { op, .. } && op == UnaryOp::Not),
            old(self).cur_kind() == TokenKind::Bang ==> (e matches Expr::Unary { op, .. } && op == UnaryOp::LogNot),
            old(self).cur_kind() == TokenKind::Minus ==> (e matches Expr::Unary { op, .. } && op == UnaryOp::Neg),
            exists|sp: Span| #[trigger] unary_rel(old(self).tokens@, old(self).pos as int, e, sp, final(self).pos as int),
        decreases old(self).remaining(), 2nat,
    {
        let ghost toks = self.tokens@;
        let ghost p = self.pos as int;
        let k = self.kind();
        if k == TokenKind::Tilde || k == TokenKind::Bang || k == TokenKind::Minus {
            self.bump();
            let operand = self.parse_unary();
            let ghost sp = choose|sp: Span| #[trigger] unary_rel(toks, p + 1, operand, sp, self.pos as int);
            let op = if k == TokenKind::Tilde {
                UnaryOp::Not
            } else if k == TokenKind::Bang {
                UnaryOp::LogNot
            } else {
                UnaryOp::Neg
            };
            let e = Expr::Unary { op, operand: Box::new(operand) };
            assert(unary_rel(toks, p, e, sp, self.pos as int));
            e
        } else {
            let e = self.parse_primary();
            let ghost sp = choose|sp: Span| #[trigger] select_rel(toks, p, e, sp, self.pos as int);
            assert(unary_rel(toks, p, e, sp, self.pos as int));
            e
        }
    }

    /// Identifier (or `$signed(..)` / `$clog2(..)`), number, parenthesised expression,
    /// concatenation or replication, followed by index suffixes.
    fn parse_primary(&mut self) -> (e: Expr)
        requires
            old(self).wf(),
        ensures
            progressed(*old(self), *final(self)),
            old(self).cur_kind() == TokenKind::Number ==> index_base(e) == Expr::Number(
                old(self).tokens@[old(self).pos as int].lexeme,
            ),
            old(self).cur_kind() == TokenKind::Identifier && old(self).tokens@[old(self).pos + 1].kind != TokenKind::LParen
                ==> index_base(e) == Expr::Ident(old(self).tokens@[old(self).pos as int].lexeme),
            old(self).cur_kind() == TokenKind::LBrace ==> index_base(e) is Concat,
            exists|sp: Span| #[trigger] select_rel(old(self).tokens@, old(self).pos as int, e, sp, final(self).pos as int),
            final(self).cur_kind() != TokenKind::LBracket,
        decreases old(self).remaining(), 1nat,
    {
        let ghost toks = self.tokens@;
        let ghost p = self.pos as int;
        let ghost mut sa = Span { ends: Seq::empty(), parts: Seq::empty() };
        let k = self.kind();
        let expr = if k == TokenKind::Identifier {
            let name = self.tokens[self.pos].lexeme.clone();
            let is_signed = self.lexeme_is("$signed");
            let is_clog2 = self.lexeme_is("$clog2");
            self.bump();
            if is_signed && self.match_kind(TokenKind::LParen) {
                let arg = self.parse_expression(0);
                let ghost k1 = self.pos as int;
                let _ = self.match_kind(TokenKind::RParen);
                let r = Expr::Signed(Box::new(arg));
                proof {
                    let sx = choose|sp: Span| #[trigger] expr_rel(toks, p + 2, 0, arg, sp, k1);
                    sa = Span { ends: seq![k1], parts: seq![sx] };
                }
                r
            } else if is_clog2 && self.match_kind(TokenKind::LParen) {
                let arg = self.parse_expression(0);
                let ghost k1 = self.pos as int;
                let _ = self.match_kind(TokenKind::RParen);
                let r = Expr::Clog2(Box::new(arg));
                proof {
                    reveal_strlit("$signed");
                    reveal_strlit("$clog2");
                    let sx = choose|sp: Span| #[trigger] expr_rel(toks, p + 2, 0, arg, sp, k1);
                    sa = Span { ends: seq![k1], parts: seq![sx] };
                }
                r
            } else {
                proof {
                    reveal_strlit("$signed");
                    reveal_strlit("$clog2");
                }
                Expr::Ident(name)
            }
        } else if k == TokenKind::Number {
            let lit = self.tokens[self.pos].lexeme.clone();
            self.bump();
            Expr::Number(lit)
        } else if k == TokenKind::LParen {
            self.bump();
            let e = self.parse_expression(0);
            let ghost k1 = self.pos as int;
            let _ = self.match_kind(TokenKind::RParen);
            proof {
                let sx = choose|sp: Span| #[trigger] expr_rel(toks, p + 1, 0, e, sp, k1);
                sa = Span { ends: seq![k1], parts: seq![sx] };
            }
            e
        } else if k == TokenKind::LBrace {
            self.bump();
            if self.kind() == TokenKind::Number && self.pos < self.tokens.len() - 1
                && self.tokens[self.pos + 1].kind == TokenKind::LBrace
            {
                let count = self.replication_count();
                self.bump();
                self.bump();
                let inner = self.parse_expression(0);
                let ghost k1 = self.pos as int;
                let _ = self.match_kind(TokenKind::RBrace);
                let _ = self.match_kind(TokenKind::RBrace);
                let mut exprs: Vec<Expr> = Vec::new();
                let mut i: usize = 0;
                while i < count
                    invariant
                        i <= count,
                        exprs@.len() == i,
                    decreases count - i,
                {
                    exprs.push(inner.clone());
                    i = i + 1;
                }
                assert(p + 3 <= k1 && self.pos == opt_past(toks, opt_past(toks, k1, TokenKind::RBrace), TokenKind::RBrace));
                proof {
                    sa = Span { ends: seq![k1], parts: Seq::empty() };
                }
                Expr::Concat(exprs)
            } else {
                let mut exprs: Vec<Expr> = Vec::new();
                if self.kind() != TokenKind::RBrace {
                    let x0 = self.parse_expression(0);
                    let ghost s0 = choose|sp: Span| #[trigger] expr_rel(toks, p + 1, 0, x0, sp, self.pos as int);
                    exprs.push(x0);
                    let ghost mut sx = Span { ends: Seq::empty(), parts: seq![s0] };
                    assert(list_rel(toks, p + 1, exprs@, sx, self.pos as int)) by {
                        assert(exprs@.len() == 1 && exprs@[0] == x0);
                    }
                    loop
                        invariant
                            progressed(*old(self), *self),
                            toks == old(self).tokens@,
                            list_rel(toks, p + 1, exprs@, sx, self.pos as int),
                        ensures
                            progressed(*old(self), *self),
                            list_rel(toks, p + 1, exprs@, sx, self.pos as int),
                            self.cur_kind() != TokenKind::Comma,
                        decreases self.remaining(),
                    {
                        let ghost kc = self.pos as int;
                        let ghost before = exprs@;
                        if !self.match_kind(TokenKind::Comma) {
                            break;
                        }
                        let x = self.parse_expression(0);
                        let ghost q = self.pos as int;
                        let ghost sy = choose|sp: Span| #[trigger] expr_rel(toks, kc + 1, 0, x, sp, q);
                        exprs.push(x);
                        proof {
                            let sprev = sx;
                            sx = Span { ends: seq![kc], parts: seq![sprev, sy] };
                            assert(exprs@.drop_last() =~= before);
                            assert(before.len() > 0);
                            assert(list_rel(toks, p + 1, exprs@, sx, q));
                        }
                    }
                    let ghost kl = self.pos as int;
                    let _ = self.match_kind(TokenKind::RBrace);
                    proof {
                        sa = Span { ends: seq![kl], parts: seq![sx] };
                    }
                } else {
                    let _ = self.match_kind(TokenKind::RBrace);
                }
                Expr::Concat(exprs)
            }
        } else {
            self.bump();
            proof {
                reveal_strlit("<unsupported>");
            }
            Expr::Ident("<unsupported>".to_owned())
        };
        assert(atom_rel(toks, p, expr, sa, self.pos as int));
        assert(select_rel(toks, p, expr, Span { ends: Seq::empty(), parts: seq![sa] }, self.pos as int));
        self.parse_index_suffixes(expr, Ghost(p))
    }

    /// The replication count under the cursor (`usize` parse of the number, else 1).
    fn replication_count(&self) -> (n: usize)
        requires
            self.wf(),
        ensures
            n == match parse_unsigned_spec(self.tokens@[self.pos as int].lexeme@, u128::MAX as nat) {
                Some(v) => if v <= usize::MAX { v as usize } else { 1 },
                None => 1,
            },
    {
        let chars = chars_of(self.tokens[self.pos].lexeme.as_str());
        match parse_u128(&chars) {
            Some(v) => if v <= usize::MAX as u128 { v as usize } else { 1 },
            None => 1,
        }
    }

    /// Postfix `[msb]` / `[msb:lsb]` selects.
    fn parse_index_suffixes(&mut self, expr: Expr, Ghost(p0): Ghost<int>) -> (e: Expr)
        requires
            old(self).wf(),
            exists|sp: Span| #[trigger] select_rel(old(self).tokens@, p0, expr, sp, old(self).pos as int),
        ensures
            exists|sp: Span| #[trigger] select_rel(old(self).tokens@, p0, e, sp, final(self).pos as int),
            advanced(*old(self), *final(self)),
            index_base(e) == index_base(expr),
            final(self).cur_kind() != TokenKind::LBracket,
            exists|n: nat| selects_over(e, expr, n) && (n > 0 <==> old(self).cur_kind() == TokenKind::LBracket),
            old(self).cur_kind() != TokenKind::LBracket ==> e == expr && final(self).pos == old(self).pos,
        decreases old(self).remaining(), 0nat,
    {
        let ghost base = index_base(expr);
        let ghost orig = expr;
        let ghost mut n: nat = 0;
        let ghost mut ss = choose|sp: Span| #[trigger] select_rel(old(self).tokens@, p0, expr, sp, old(self).pos as int);
        let mut expr = expr;
        while self.kind() == TokenKind::LBracket
            invariant
                advanced(*old(self), *self),
                select_rel(old(self).tokens@, p0, expr, ss, self.pos as int),
                index_base(expr) == base,
                selects_over(expr, orig, n),
                n == 0 ==> self.pos == old(self).pos && expr == orig,
                n > 0 ==> old(self).cur_kind() == TokenKind::LBracket,
            decreases self.remaining(),
        {
            let ghost toks = self.tokens@;
            let ghost k = self.pos as int;
            self.bump();
            let msb = self.parse_expression(0);
            let ghost k2 = self.pos as int;
            let ghost sm = choose|sp: Span| #[trigger] expr_rel(toks, k + 1, 0, msb, sp, k2);
            let ghost mut sls = sm;
            let lsb = if self.match_kind(TokenKind::Colon) {
                let l = self.parse_expression(0);
                proof {
                    sls = choose|sp: Span| #[trigger] expr_rel(toks, k2 + 1, 0, l, sp, self.pos as int);
                }
                Some(Box::new(l))
            } else {
                None
            };
            let ghost k3 = self.pos as int;
            let _ = self.match_kind(TokenKind::RBracket);
            let ghost prev = expr;
            let ghost sb = ss;
            expr = Expr::Index { base: Box::new(expr), msb: Box::new(msb), lsb };
            proof {
                ss = Span { ends: seq![k, k2, k3], parts: seq![sb, sm, sls] };
                assert(select_rel(toks, p0, expr, ss, self.pos as int));
            }
            proof {
                assert(selects_over(expr, orig, n + 1)) by {
                    assert(selects_over(prev, orig, n));
                }
                n = n + 1;
            }
        }
        assert(selects_over(expr, orig, n));
        assert(select_rel(old(self).tokens@, p0, expr, ss, self.pos as int));
        expr
    }
}


impl<'a> Parser<'a> {
    /// Skips to the next `;` (or `Eof`) and consumes it.
    fn skip_to_semicolon(&mut self)
        requires
            old(self).wf(),
        ensures
            progressed(*old(self), *final(self)),
            final(self).diagnostics@ == old(self).diagnostics@,
    {
        while self.kind() != TokenKind::Semicolon && self.kind() != TokenKind::Eof
            invariant
                advanced(*old(self), *self),
                self.diagnostics@ == old(self).diagnostics@,
            decreases self.remaining(),
        {
            self.bump();
        }
        let _ = self.match_kind(TokenKind::Semicolon);
    }

    /// Skips a `genvar ...;` statement.
    fn skip_genvar_statement(&mut self)
        requires
            old(self).wf(),
        ensures
            progressed(*old(self), *final(self)),
    {
        self.bump();
        self.skip_to_semicolon();
    }

    /// Skips to the next `endgenerate` (or `Eof`) and consumes it.
    fn skip_to_endgenerate(&mut self)
        requires
            old(self).wf(),
        ensures
            advanced(*old(self), *final(self)),
            final(self).diagnostics@ == old(self).diagnostics@,
            match first_kind_from(old(self).tokens@, old(self).pos as int, TokenKind::Endgenerate) {
                Some(q) => final(self).pos == q + 1,
                None => final(self).pos == old(self).tokens@.len() - 1,
            },
            final(self).cur_kind() == TokenKind::Eof || final(self).tokens@[final(self).pos - 1].kind
                == TokenKind::Endgenerate,
    {
        assert(first_kind_from(self.tokens@, self.pos as int, TokenKind::Endgenerate) == first_kind_from(
            self.tokens@,
            old(self).pos as int,
            TokenKind::Endgenerate,
        ));
        while self.kind() != TokenKind::Endgenerate && self.kind() != TokenKind::Eof
            invariant
                advanced(*old(self), *self),
                self.diagnostics@ == old(self).diagnostics@,
                first_kind_from(self.tokens@, self.pos as int, TokenKind::Endgenerate) == first_kind_from(
                    old(self).tokens@,
                    old(self).pos as int,
                    TokenKind::Endgenerate,
                ),
            decreases self.remaining(),
        {
            self.bump();
        }
        proof {
            if self.cur_kind() == TokenKind::Eof {
                assert(self.pos == self.tokens@.len() - 1);
                assert(first_kind_from(self.tokens@, self.pos + 1, TokenKind::Endgenerate) is None);
            }
        }
        let _ = self.match_kind(TokenKind::Endgenerate);
    }

    /// After the register or net name: an optional `[bit]` or `[msb:lsb]`.
    fn parse_assign_target_suffix(&mut self, reg: String) -> (t: AssignTarget)
        requires
            old(self).wf(),
        ensures
            advanced(*old(self), *final(self)),
            old(self).cur_kind() != TokenKind::LBracket ==> t == AssignTarget::Whole(reg) && final(self).pos
                == old(self).pos,
            old(self).cur_kind() == TokenKind::LBracket ==> !(t is Whole),
            target_reg(t) == reg,
            exists|sp: Span| #[trigger] target_rel(old(self).tokens@, old(self).pos - 1, reg, t, sp, final(self).pos as int),
    {
        let ghost toks = self.tokens@;
        let ghost p = self.pos - 1;
        if self.kind() == TokenKind::LBracket {
            self.bump();
            let msb = self.parse_expression(0);
            let ghost k1 = self.pos as int;
            let ghost s0 = choose|sp: Span| #[trigger] expr_rel(toks, p + 2, 0, msb, sp, k1);
            if self.match_kind(TokenKind::Colon) {
                let lsb = self.parse_expression(0);
                let ghost k2 = self.pos as int;
                let ghost s1 = choose|sp: Span| #[trigger] expr_rel(toks, k1 + 1, 0, lsb, sp, k2);
                let _ = self.match_kind(TokenKind::RBracket);
                let t = AssignTarget::PartSelect { reg, msb, lsb };
                assert(target_rel(toks, p, reg, t, Span { ends: seq![k1, k2], parts: seq![s0, s1] }, self.pos as int));
                t
            } else {
                let _ = self.match_kind(TokenKind::RBracket);
                let t = AssignTarget::BitSelect { reg, index: msb };
                assert(target_rel(toks, p, reg, t, Span { ends: seq![k1, k1], parts: seq![s0, s0] }, self.pos as int));
                t
            }
        } else {
            let t = AssignTarget::Whole(reg);
            assert(target_rel(toks, p, reg, t, Span { ends: Seq::empty(), parts: Seq::empty() }, self.pos as int));
            t
        }
    }

    /// The delay literal after a consumed `#`: a number, optionally `.` and a fraction number.
    fn parse_delay_lexeme_tokens(&mut self) -> (s: String)
        requires
            old(self).wf(),
        ensures
            advanced(*old(self), *final(self)),
            old(self).cur_kind() != TokenKind::Number ==> s@.len() == 0 && final(self).pos == old(self).pos,
            old(self).cur_kind() == TokenKind::Number ==> final(self).pos > old(self).pos,
            s@ == delay_text_at(old(self).tokens@, old(self).pos as int),
    {
        if self.kind() != TokenKind::Number {
            return String::new();
        }
        let mut text = chars_of(self.tokens[self.pos].lexeme.as_str());
        self.bump();
        if self.kind() == TokenKind::Dot {
            self.bump();
            if self.kind() == TokenKind::Number {
                let frac = chars_of(self.tokens[self.pos].lexeme.as_str());
                text.push('.');
                text = concat_chars(&text, &frac);
                self.bump();
            }
        }
        string_from_chars(&text)
    }

    /// The delay value of a literal (integer or decimal real), as an exact rational.
    fn delay_from_delay_lexeme(s: &str) -> (d: DelayRational)
        ensures
            d == lexeme_delay_spec(s@),
    {
        DelayRational::from_delay_lexeme(s)
    }

    /// `#` followed by an integer or real delay (`#5`, `#0.5`); a trailing `;` stays.
    fn parse_delay_numeric_after_hash(&mut self) -> (d: DelayRational)
        requires
            old(self).wf(),
        ensures
            advanced(*old(self), *final(self)),
            old(self).cur_kind() == TokenKind::Hash ==> final(self).pos > old(self).pos,
            old(self).cur_kind() != TokenKind::Hash ==> d == zero_delay() && final(self).pos == old(self).pos,
            old(self).cur_kind() == TokenKind::Hash ==> d == lexeme_delay_spec(
                delay_text_at(old(self).tokens@, old(self).pos + 1),
            ),
    {
        if self.kind() != TokenKind::Hash {
            return DelayRational::new(0, 1);
        }
        self.bump();
        let text = self.parse_delay_lexeme_tokens();
        Self::delay_from_delay_lexeme(text.as_str())
    }

    /// `@*`, `@(*)` or `@(posedge a or negedge b, c)`; no `@` means `Star`.
    fn parse_sensitivity(&mut self) -> (r: Sensitivity)
        requires
            old(self).wf(),
        ensures
            advanced(*old(self), *final(self)),
            old(self).cur_kind() != TokenKind::At ==> r is Star && final(self).pos == old(self).pos,
            old(self).cur_kind() == TokenKind::At && old(self).tokens@[old(self).pos + 1].kind == TokenKind::LParen
                && old(self).tokens@[old(self).pos + 2].kind != TokenKind::Star ==> (r matches Sensitivity::EdgeList(es)
                && sens_view(es@) == sens_entries(old(self).tokens@, old(self).pos + 2)),
            old(self).cur_kind() == TokenKind::At && !(old(self).tokens@[old(self).pos + 1].kind == TokenKind::LParen
                && old(self).tokens@[old(self).pos + 2].kind != TokenKind::Star) ==> r is Star,
    {
        if !self.match_kind(TokenKind::At) {
            return Sensitivity::Star;
        }
        if self.kind() == TokenKind::Star {
            self.bump();
            return Sensitivity::Star;
        }
        if !self.match_kind(TokenKind::LParen) {
            return Sensitivity::Star;
        }
        if self.kind() == TokenKind::Star {
            self.bump();
            let _ = self.match_kind(TokenKind::RParen);
            return Sensitivity::Star;
        }
        let mut edges: Vec<SensEdge> = Vec::new();
        let ghost toks = self.tokens@;
        let ghost p0 = self.pos as int;
        assert(sens_view(edges@) =~= seq![]);
        loop
            invariant_except_break
                sens_entries(toks, p0) == sens_view(edges@) + sens_entries(toks, self.pos as int),
            invariant
                advanced(*old(self), *self),
                toks == self.tokens@,
            ensures
                sens_entries(toks, p0) == sens_view(edges@),
            decreases self.remaining(),
        {
            let ghost ph = self.pos as int;
            let ghost e0 = edges@;
            let k = self.kind();
            let edge = if k == TokenKind::Posedge {
                self.bump();
                EdgeKind::Posedge
            } else if k == TokenKind::Negedge {
                self.bump();
                EdgeKind::Negedge
            } else {
                EdgeKind::Level
            };
            assert(sens_edge_at(toks, ph) == (edge, self.pos as int));
            match self.expect_identifier("expected signal in sensitivity list") {
                Some(sig) => {
                    edges.push(SensEdge { edge, signal: sig });
                    assert(sens_view(edges@) =~= sens_view(e0).push((edge, sig@)));
                },
                None => {
                    assert(sens_entries(toks, ph) =~= seq![]);
                    assert(sens_view(e0) + seq![] =~= sens_view(e0));
                    break;
                },
            }
            let is_or = self.kind() == TokenKind::Identifier && self.lexeme_is("or");
            if is_or || self.kind() == TokenKind::Comma {
                assert(sens_separator(toks, self.pos as int));
                self.bump();
                assert(sens_view(e0) + (seq![(edge, edges@.last().signal@)] + sens_entries(toks, self.pos as int))
                    =~= sens_view(edges@) + sens_entries(toks, self.pos as int));
            } else {
                assert(!sens_separator(toks, self.pos as int));
                assert(sens_view(e0) + seq![(edge, edges@.last().signal@)] =~= sens_view(edges@));
                break;
            }
        }
        let _ = self.match_kind(TokenKind::RParen);
        Sensitivity::EdgeList(edges)
    }

    /// `begin stmt* end`, or a single statement.
    fn parse_stmt_block(&mut self) -> (v: Vec<CstStmt>)
        requires
            old(self).wf(),
        ensures
            progressed(*old(self), *final(self)),
            old(self).cur_kind() != TokenKind::Begin ==> v@.len() <= 1,
            exists|sp: Span| #[trigger] block_rel(old(self).tokens@, old(self).pos as int, v@, sp, final(self).pos as int),
        decreases old(self).remaining(), 1nat,
    {
        let ghost toks = self.tokens@;
        let ghost p = self.pos as int;
        if self.match_kind(TokenKind::Begin) {
            let mut stmts: Vec<CstStmt> = Vec::new();
            let ghost mut sps = Span { ends: Seq::empty(), parts: Seq::empty() };
            let ghost mut m = p + 1;
            let ghost mut ps: Seq<int> = seq![p + 1];
            while self.kind() != TokenKind::End && self.kind() != TokenKind::Eof
                invariant
                    progressed(*old(self), *self),
                    self.pos > old(self).pos,
                    toks == old(self).tokens@,
                    p == old(self).pos,
                    toks[p].kind == TokenKind::Begin,
                    stmts_from(toks, p + 1, stmts@, sps, m),
                    ps.len() > 0 && ps[0] == m && ps.last() == self.pos,
                    forall|i: int|
                        0 <= i < ps.len() - 1 ==> toks[#[trigger] ps[i]].kind != TokenKind::End && toks[ps[i]].kind
                            != TokenKind::Eof && stmt_skipped(toks, ps[i], ps[i + 1]),
                decreases self.remaining(),
            {
                let ghost c = self.pos as int;
                match self.parse_stmt() {
                    Some(st) => {
                        let ghost sst = choose|sp: Span| #[trigger] stmt_rel(toks, c, st, sp, self.pos as int);
                        let ghost before = stmts@;
                        stmts.push(st);
                        proof {
                            assert(skips_only(toks, m, c));
                            let prev = sps;
                            sps = Span { ends: seq![m, c], parts: seq![prev, sst] };
                            assert(stmts@.drop_last() =~= before);
                            assert(stmts_from(toks, p + 1, stmts@, sps, self.pos as int));
                            m = self.pos as int;
                            ps = seq![m];
                        }
                    },
                    None => {
                        proof {
                            let old_ps = ps;
                            ps = ps.push(self.pos as int);
                            assert forall|i: int| 0 <= i < ps.len() - 1 implies toks[#[trigger] ps[i]].kind != TokenKind::End
                                && toks[ps[i]].kind != TokenKind::Eof && stmt_skipped(toks, ps[i], ps[i + 1]) by {
                                if i < old_ps.len() - 1 {
                                    assert(ps[i] == old_ps[i] && ps[i + 1] == old_ps[i + 1]);
                                } else {
                                    assert(ps[i] == c);
                                }
                            }
                        }
                    },
                }
            }
            let ghost e = self.pos as int;
            let _ = self.match_kind(TokenKind::End);
            proof {
                assert(skips_only(toks, m, e));
                assert(block_rel(toks, p, stmts@, Span { ends: seq![m, e], parts: seq![sps] }, self.pos as int));
            }
            stmts
        } else {
            match self.parse_stmt() {
                Some(st) => {
                    let ghost sst = choose|sp: Span| #[trigger] stmt_rel(toks, p, st, sp, self.pos as int);
                    let v = vec![st];
                    assert(v@ =~= seq![st]);
                    assert(block_rel(toks, p, v@, Span { ends: Seq::empty(), parts: seq![sst] }, self.pos as int));
                    v
                },
                None => {
                    let v: Vec<CstStmt> = Vec::new();
                    assert(block_rel(toks, p, v@, Span { ends: Seq::empty(), parts: Seq::empty() }, self.pos as int));
                    v
                },
            }
        }
    }

    /// One procedural statement: `#delay;`, a system task call, `if`, `case`, `for`, or a
    /// blocking / non-blocking assignment. Unrecognised tokens are skipped (`None`).
    fn parse_stmt(&mut self) -> (r: Option<CstStmt>)
        requires
            old(self).wf(),
        ensures
            progressed(*old(self), *final(self)),
            old(self).cur_kind() == TokenKind::Hash ==> r == Some(
                CstStmt::Delay(lexeme_delay_spec(delay_text_at(old(self).tokens@, old(self).pos + 1))),
            ),
            old(self).cur_kind() == TokenKind::Identifier && is_system_name(old(self).tokens@[old(self).pos as int].lexeme@)
                ==> (r matches Some(CstStmt::SystemTask { name, .. }) && name == old(self).tokens@[old(self).pos as int].lexeme),
            old(self).cur_kind() == TokenKind::If ==> r matches Some(CstStmt::IfElse { .. }),
            old(self).cur_kind() == TokenKind::Case ==> r matches Some(CstStmt::Case { .. }),
            old(self).cur_kind() == TokenKind::For ==> r is None || r matches Some(CstStmt::For { .. }),
            old(self).cur_kind() == TokenKind::Identifier && !is_system_name(old(self).tokens@[old(self).pos as int].lexeme@)
                ==> r is None || (r matches Some(CstStmt::BlockingAssign { target, .. }) && target_reg(target)
                == old(self).tokens@[old(self).pos as int].lexeme) || (r matches Some(
                CstStmt::NonBlockingAssign { target, .. },
            ) && target_reg(target) == old(self).tokens@[old(self).pos as int].lexeme),
            !(old(self).cur_kind() == TokenKind::Hash || old(self).cur_kind() == TokenKind::Identifier
                || old(self).cur_kind() == TokenKind::If || old(self).cur_kind() == TokenKind::Case
                || old(self).cur_kind() == TokenKind::For) ==> r is None,
            old(self).cur_kind() == TokenKind::Identifier && !is_system_name(old(self).tokens@[old(self).pos as int].lexeme@)
                ==> {
                let p = old(self).pos as int;
                let next = old(self).tokens@[p + 1].kind;
                &&& next == TokenKind::Eq ==> (r matches Some(CstStmt::BlockingAssign { target, .. }) && target
                    == AssignTarget::Whole(old(self).tokens@[p].lexeme))
                &&& next == TokenKind::Le ==> (r matches Some(CstStmt::NonBlockingAssign { target, .. }) && target
                    == AssignTarget::Whole(old(self).tokens@[p].lexeme))
                &&& next != TokenKind::Eq && next != TokenKind::Le && next != TokenKind::LBracket ==> r is None
                &&& next == TokenKind::LBracket && r is Some ==> (r matches Some(CstStmt::BlockingAssign { target, .. })
                    && !(target is Whole)) || (r matches Some(CstStmt::NonBlockingAssign { target, .. }) && !(target is Whole))
            },
            old(self).cur_kind() == TokenKind::For && old(self).tokens@[old(self).pos + 1].kind == TokenKind::LParen ==> (
            r matches Some(CstStmt::For { init_var, .. }) ==> init_var@ == old(self).tokens@[old(self).pos + 2].lexeme@),
            r matches Some(st) ==> exists|sp: Span| #[trigger] stmt_rel(old(self).tokens@, old(self).pos as int, st, sp, final(self).pos as int),
            r is None ==> stmt_skipped(old(self).tokens@, old(self).pos as int, final(self).pos as int),
        decreases old(self).remaining(), 0nat,
    {
        let ghost toks = self.tokens@;
        let ghost p = self.pos as int;
        let k = self.kind();
        if k == TokenKind::Hash {
            let ticks = self.parse_delay_numeric_after_hash();
            let ghost k1 = self.pos as int;
            let _ = self.match_kind(TokenKind::Semicolon);
            let st = CstStmt::Delay(ticks);
            assert(stmt_rel(toks, p, st, Span { ends: seq![k1], parts: Seq::empty() }, self.pos as int));
            return Some(st);
        }
        if k == TokenKind::Identifier && self.lexeme_is_system() {
            let name = self.tokens[self.pos].lexeme.clone();
            self.bump();
            let mut args: Vec<Expr> = Vec::new();
            let ghost mut sa = Span { ends: Seq::empty(), parts: Seq::empty() };
            let ghost mut e = self.pos as int;
            let ghost mut kl = self.pos as int;
            if self.match_kind(TokenKind::LParen) {
                if self.kind() != TokenKind::RParen {
                    let x0 = self.parse_expression(0);
                    let ghost s0 = choose|sp: Span| #[trigger] expr_rel(toks, p + 2, 0, x0, sp, self.pos as int);
                    args.push(x0);
                    proof {
                        sa = Span { ends: Seq::empty(), parts: seq![s0] };
                        assert(args@.len() == 1 && args@[0] == x0);
                    }
                    loop
                        invariant
                            progressed(*old(self), *self),
                            toks == old(self).tokens@,
                            list_rel(toks, p + 2, args@, sa, self.pos as int),
                        ensures
                            progressed(*old(self), *self),
                            list_rel(toks, p + 2, args@, sa, self.pos as int),
                            self.cur_kind() != TokenKind::Comma,
                        decreases self.remaining(),
                    {
                        let ghost kc = self.pos as int;
                        let ghost before = args@;
                        if !self.match_kind(TokenKind::Comma) {
                            break;
                        }
                        let x = self.parse_expression(0);
                        let ghost q = self.pos as int;
                        let ghost sy = choose|sp: Span| #[trigger] expr_rel(toks, kc + 1, 0, x, sp, q);
                        args.push(x);
                        proof {
                            let sprev = sa;
                            sa = Span { ends: seq![kc], parts: seq![sprev, sy] };
                            assert(args@.drop_last() =~= before);
                            assert(before.len() > 0);
                            assert(list_rel(toks, p + 2, args@, sa, q));
                        }
                    }
                    let ghost k0 = self.pos as int;
                    let _ = self.match_kind(TokenKind::RParen);
                    proof {
                        e = self.pos as int;
                        kl = k0;
                    }
                } else {
                    let _ = self.match_kind(TokenKind::RParen);
                    proof {
                        e = self.pos as int;
                    }
                }
            }
            let _ = self.match_kind(TokenKind::Semicolon);
            let st = CstStmt::SystemTask { name, args };
            assert(stmt_rel(toks, p, st, Span { ends: seq![e, kl], parts: seq![sa] }, self.pos as int));
            return Some(st);
        }
        if k == TokenKind::If {
            self.bump();
            let _ = self.match_kind(TokenKind::LParen);
            let cond = self.parse_expression(0);
            let ghost qc = self.pos as int;
            let ghost sc = choose|sp: Span| #[trigger] expr_rel(toks, opt_past(toks, p + 1, TokenKind::LParen), 0, cond, sp, qc);
            let _ = self.match_kind(TokenKind::RParen);
            let ghost b0 = self.pos as int;
            let then_body = self.parse_stmt_block();
            let ghost k2 = self.pos as int;
            let ghost st_then = choose|sp: Span| #[trigger] block_rel(toks, b0, then_body@, sp, k2);
            let ghost mut st_else = Span { ends: Seq::empty(), parts: Seq::empty() };
            let else_body = if self.match_kind(TokenKind::Else) {
                let b = self.parse_stmt_block();
                proof {
                    st_else = choose|sp: Span| #[trigger] block_rel(toks, k2 + 1, b@, sp, self.pos as int);
                }
                b
            } else {
                Vec::new()
            };
            let r = Some(CstStmt::IfElse { cond, then_body, else_body });
            assert(stmt_rel(
                toks,
                p,
                r->0,
                Span { ends: seq![qc, k2], parts: seq![sc, st_then, st_else] },
                self.pos as int,
            ));
            r
        } else if k == TokenKind::Case {
            self.bump();
            let _ = self.match_kind(TokenKind::LParen);
            let expr = self.parse_expression(0);
            let ghost qc = self.pos as int;
            let ghost sc = choose|sp: Span| #[trigger] expr_rel(toks, opt_past(toks, p + 1, TokenKind::LParen), 0, expr, sp, qc);
            let _ = self.match_kind(TokenKind::RParen);
            let ghost a = self.pos as int;
            let mut arms: Vec<CaseArm> = Vec::new();
            let mut default: Vec<CstStmt> = Vec::new();
            let ghost mut mode: int = 0;
            let ghost mut dpos: (int, int) = (0, 0);
            let ghost mut se = Span { ends: Seq::empty(), parts: Seq::empty() };
            let ghost mut sd = Span { ends: Seq::empty(), parts: Seq::empty() };
            while self.kind() != TokenKind::Endcase && self.kind() != TokenKind::Eof
                invariant
                    progressed(*old(self), *self),
                    self.pos > old(self).pos,
                    toks == old(self).tokens@,
                    a <= self.pos,
                    mode == 0 || mode == 1,
                    case_entries(toks, arms@, a, mode, dpos, se, self.pos as int),
                    mode == 0 ==> default@.len() == 0,
                    mode == 1 ==> block_rel(toks, dpos.0, default@, sd, dpos.1),
                decreases self.remaining(),
            {
                let ghost m = self.pos as int;
                if self.kind() == TokenKind::Default {
                    self.bump();
                    let _ = self.match_kind(TokenKind::Colon);
                    let ghost b = self.pos as int;
                    default = self.parse_stmt_block();
                    proof {
                        let z = self.pos as int;
                        sd = choose|sp: Span| #[trigger] block_rel(toks, b, default@, sp, z);
                        lemma_case_entries_replaced(toks, arms@, a, mode, dpos, se, m, (b, z));
                        let prev = se;
                        se = Span { ends: seq![m, m], parts: seq![prev, prev, prev] };
                        mode = 1;
                        dpos = (b, z);
                        assert(case_entries(toks, arms@, a, mode, dpos, se, z));
                    }
                } else {
                    let value = self.parse_expression(0);
                    let ghost k = self.pos as int;
                    let ghost sv = choose|sp: Span| #[trigger] expr_rel(toks, m, 0, value, sp, k);
                    let _ = self.match_kind(TokenKind::Colon);
                    let ghost b = self.pos as int;
                    let body = self.parse_stmt_block();
                    let ghost z = self.pos as int;
                    let ghost sb = choose|sp: Span| #[trigger] block_rel(toks, b, body@, sp, z);
                    let ghost before = arms@;
                    let arm = CaseArm { value, body };
                    proof {
                        assert(expr_rel(toks, m, 0, arm.value, sv, k));
                        assert(block_rel(toks, b, arm.body@, sb, z));
                    }
                    arms.push(arm);
                    proof {
                        let prev = se;
                        se = Span { ends: seq![m, k], parts: seq![prev, sb, sv] };
                        assert(arms@.drop_last() =~= before);
                        assert(arms@.last() == arm);
                        assert(case_entries(toks, arms@, a, mode, dpos, se, z));
                    }
                }
            }
            let ghost e = self.pos as int;
            let _ = self.match_kind(TokenKind::Endcase);
            let r = Some(CstStmt::Case { expr, arms, default });
            assert(stmt_rel(
                toks,
                p,
                r->0,
                Span { ends: seq![qc, e, mode, dpos.0, dpos.1], parts: seq![sc, se, sd] },
                self.pos as int,
            ));
            r
        } else if k == TokenKind::For {
            self.bump();
            let _ = self.match_kind(TokenKind::LParen);
            let ghost c0 = self.pos as int;
            let init_var = match self.expect_identifier("expected loop variable") {
                Some(v) => v,
                None => {
                    return None;
                },
            };
            let ghost c1 = self.pos as int;
            let _ = self.match_kind(TokenKind::Eq);
            let init_val = self.parse_expression(0);
            let ghost q1 = self.pos as int;
            let ghost s1 = choose|sp: Span| #[trigger] expr_rel(toks, opt_past(toks, c1, TokenKind::Eq), 0, init_val, sp, q1);
            let _ = self.match_kind(TokenKind::Semicolon);
            let cond = self.parse_expression(0);
            let ghost q2 = self.pos as int;
            let ghost s2 = choose|sp: Span| #[trigger] expr_rel(toks, opt_past(toks, q1, TokenKind::Semicolon), 0, cond, sp, q2);
            let _ = self.match_kind(TokenKind::Semicolon);
            let ghost c3 = self.pos as int;
            let step_var = match self.expect_identifier("expected step variable") {
                Some(v) => v,
                None => {
                    return None;
                },
            };
            let ghost c4 = self.pos as int;
            let _ = self.match_kind(TokenKind::Eq);
            let step_expr = self.parse_expression(0);
            let ghost q3 = self.pos as int;
            let ghost s3 = choose|sp: Span| #[trigger] expr_rel(toks, opt_past(toks, c4, TokenKind::Eq), 0, step_expr, sp, q3);
            let _ = self.match_kind(TokenKind::RParen);
            let ghost b0 = self.pos as int;
            let body = self.parse_stmt_block();
            let ghost sb = choose|sp: Span| #[trigger] block_rel(toks, b0, body@, sp, self.pos as int);
            let r = Some(CstStmt::For { init_var, init_val, cond, step_var, step_expr, body });
            assert(c1 == c0 + 1 && c0 == opt_past(toks, p + 1, TokenKind::LParen) && c4 == c3 + 1);
            assert(stmt_rel(toks, p, r->0, Span { ends: seq![q1, q2, q3], parts: seq![s1, s2, s3, sb] }, self.pos as int));
            r
        } else if k == TokenKind::Identifier {
            let reg = self.tokens[self.pos].lexeme.clone();
            self.bump();
            let target = self.parse_assign_target_suffix(reg);
            let ghost t0 = self.pos as int;
            let ghost stg = choose|sp: Span| #[trigger] target_rel(toks, p, reg, target, sp, t0);
            if self.kind() == TokenKind::Le {
                self.bump();
                let rhs = self.parse_expression(0);
                let ghost q = self.pos as int;
                let ghost sr = choose|sp: Span| #[trigger] expr_rel(toks, t0 + 1, 0, rhs, sp, q);
                let _ = self.match_kind(TokenKind::Semicolon);
                let r = Some(CstStmt::NonBlockingAssign { target, rhs });
                assert(stmt_rel(toks, p, r->0, Span { ends: seq![t0, q], parts: seq![stg, sr] }, self.pos as int));
                r
            } else if self.match_kind(TokenKind::Eq) {
                let rhs = self.parse_expression(0);
                let ghost q = self.pos as int;
                let ghost sr = choose|sp: Span| #[trigger] expr_rel(toks, t0 + 1, 0, rhs, sp, q);
                let _ = self.match_kind(TokenKind::Semicolon);
                let r = Some(CstStmt::BlockingAssign { target, rhs });
                assert(stmt_rel(toks, p, r->0, Span { ends: seq![t0, q], parts: seq![stg, sr] }, self.pos as int));
                r
            } else {
                self.skip_to_semicolon();
                None
            }
        } else {
            self.bump();
            None
        }
    }
}


/// Packed width of `[m:l]`: `|m - l| + 1`, capped at `usize::MAX`.
pub open spec fn port_width_spec(m: int, l: int) -> nat {
    let d = if m >= l { m - l } else { l - m };
    if d + 1 > usize::MAX { usize::MAX as nat } else { (d + 1) as nat }
}

/// A bound of a packed range under the module parameters: its value, or 1 when it does not
/// evaluate.
pub open spec fn port_bound_spec(e: Expr, module_parameters: Seq<(String, Expr)>) -> i64 {
    match const_eval_spec(e, resolve_spec(module_parameters)) {
        Some(v) => v,
        None => 1,
    }
}

impl<'a> Parser<'a> {
    /// Width of an ANSI port range `[msb:lsb]`, evaluated under the module-header parameters only.
    pub fn eval_port_packed_width(msb: &Expr, lsb: &Expr, module_parameters: &Vec<(String, Expr)>) -> (w: usize)
        ensures
            w == port_width_spec(
                port_bound_spec(*msb, module_parameters@) as int,
                port_bound_spec(*lsb, module_parameters@) as int,
            ),
            w >= 1,
    {
        let known = resolve_local_param_values(module_parameters);
        let m: i64 = match const_eval_param_expr(msb, &known) {
            Some(v) => v,
            None => 1,
        };
        let l: i64 = match const_eval_param_expr(lsb, &known) {
            Some(v) => v,
            None => 1,
        };
        let d: i128 = if m >= l { m as i128 - l as i128 } else { l as i128 - m as i128 };
        if d >= usize::MAX as i128 {
            usize::MAX
        } else {
            (d + 1) as usize
        }
    }

    /// `#( [parameter] NAME = expr, ... )` of a module header; empty without `#(`.
    fn parse_module_parameter_list(&mut self) -> (v: Vec<(String, Expr)>)
        requires
            old(self).wf(),
        ensures
            advanced(*old(self), *final(self)),
            old(self).cur_kind() != TokenKind::Hash ==> v@.len() == 0 && final(self).pos == old(self).pos,
            old(self).cur_kind() == TokenKind::Hash && old(self).tokens@[old(self).pos + 1].kind != TokenKind::LParen
                ==> v@.len() == 0,
            first_header_param(old(self).tokens@, old(self).pos as int) matches Some(nm) ==> v@.len() >= 1
                && v@[0].0@ == nm,
            exists|idx: Seq<int>| names_at(v@, old(self).tokens@, idx, old(self).pos as int, final(self).pos as int),
    {
        let mut v: Vec<(String, Expr)> = Vec::new();
        let ghost p = self.pos as int;
        let ghost mut idx: Seq<int> = Seq::empty();
        if !self.match_kind(TokenKind::Hash) {
            assert(names_at(v@, old(self).tokens@, idx, p, self.pos as int));
            return v;
        }
        if !self.match_kind(TokenKind::LParen) {
            assert(names_at(v@, old(self).tokens@, idx, p, self.pos as int));
            return v;
        }
        while self.kind() != TokenKind::RParen && self.kind() != TokenKind::Eof
            invariant
                advanced(*old(self), *self),
                p == old(self).pos,
                old(self).cur_kind() == TokenKind::Hash,
                old(self).tokens@[p + 1].kind == TokenKind::LParen,
                names_at(v@, old(self).tokens@, idx, p, self.pos as int),
                v@.len() == 0 ==> self.pos == p + 2 || first_header_param(old(self).tokens@, p) is None,
                v@.len() >= 1 ==> (first_header_param(old(self).tokens@, p) matches Some(nm) ==> v@[0].0@ == nm),
            ensures
                advanced(*old(self), *self),
                names_at(v@, old(self).tokens@, idx, p, self.pos as int),
                v@.len() == 0 ==> first_header_param(old(self).tokens@, p) is None,
                v@.len() >= 1 ==> (first_header_param(old(self).tokens@, p) matches Some(nm) ==> v@[0].0@ == nm),
            decreases self.remaining(),
        {
            if self.kind() == TokenKind::Parameter {
                self.bump();
            }
            let ghost q = self.pos as int;
            let pname = match self.expect_identifier("expected parameter name") {
                Some(n) => n,
                None => {
                    break;
                },
            };
            if !self.match_kind(TokenKind::Eq) {
                self.error_at_current("expected `=` in module parameter list");
                assert(names_at(v@, old(self).tokens@, idx, p, self.pos as int));
                while self.kind() != TokenKind::RParen && self.kind() != TokenKind::Eof
                    invariant
                        advanced(*old(self), *self),
                        names_at(v@, old(self).tokens@, idx, p, self.pos as int),
                        v@.len() == 0 ==> first_header_param(old(self).tokens@, p) is None,
                        v@.len() >= 1 ==> (first_header_param(old(self).tokens@, p) matches Some(nm) ==> v@[0].0@
                            == nm),
                    decreases self.remaining(),
                {
                    self.bump();
                }
                break;
            }
            let rhs = self.parse_expression(0);
            let ghost prev = v@;
            v.push((pname, rhs));
            proof {
                idx = idx.push(q);
                assert(v@[v@.len() - 1].0@ == old(self).tokens@[q].lexeme@);
                assert forall|i: int| 0 <= i < v@.len() implies p <= #[trigger] idx[i] < self.pos
                    && old(self).tokens@[idx[i]].kind == TokenKind::Identifier
                    && old(self).tokens@[idx[i]].lexeme@ == v@[i].0@ by {
                    if i < prev.len() {
                        assert(v@[i] == prev[i]);
                    }
                }
            }
            if !self.match_kind(TokenKind::Comma) {
                break;
            }
        }
        let _ = self.match_kind(TokenKind::RParen);
        assert(names_at(v@, old(self).tokens@, idx, p, self.pos as int));
        v
    }

    /// After the `parameter` / `localparam` keyword: an optional `[high:low]`, then
    /// `name = expr` pairs separated by commas, and `;`. `None` after a malformed pair.
    fn parse_param_assign_list_after_keyword(&mut self) -> (r: Option<Vec<(String, Expr)>>)
        requires
            old(self).wf(),
        ensures
            progressed(*old(self), *final(self)),
            r matches Some(v) ==> v@.len() >= 1,
    {
        if self.kind() == TokenKind::LBracket {
            while self.kind() != TokenKind::RBracket && self.kind() != TokenKind::Eof
                invariant
                    advanced(*old(self), *self),
                decreases self.remaining(),
            {
                self.bump();
            }
            let _ = self.match_kind(TokenKind::RBracket);
        }
        let mut pairs: Vec<(String, Expr)> = Vec::new();
        loop
            invariant
                advanced(*old(self), *self),
                old(self).cur_kind() != TokenKind::Eof && pairs@.len() > 0 ==> self.pos > old(self).pos,
            ensures
                pairs@.len() >= 1,
                progressed(*old(self), *self),
            decreases self.remaining(),
        {
            let name = match self.expect_identifier("expected parameter name") {
                Some(n) => n,
                None => {
                    return None;
                },
            };
            if !self.match_kind(TokenKind::Eq) {
                self.error_at_current("expected `=` in parameter/localparam declaration");
                return None;
            }
            let rhs = self.parse_expression(0);
            pairs.push((name, rhs));
            if !self.match_kind(TokenKind::Comma) {
                break;
            }
        }
        let _ = self.match_kind(TokenKind::Semicolon);
        Some(pairs)
    }

    /// The rest of a net declaration after its keyword (`wire`, `reg`, `integer`, `logic`, or a
    /// direction): optional `signed`, an optional packed range, then names with optional unpacked
    /// ranges, up to `;`. `None` when no name could be read.
    fn parse_net_decl_core(&mut self, kind: NetKind, decl_dir: Option<String>) -> (r: Option<CstModuleItem>)
        requires
            old(self).wf(),
        ensures
            progressed(*old(self), *final(self)),
            r matches Some(CstModuleItem::NetDecl { kind: k, names, decl_dir: d, .. }) ==> k == kind
                && names@.len() >= 1 && d == decl_dir,
            r is Some ==> r->0 is NetDecl,
    {
        let is_integer = kind == NetKind::Reg && self.pos > 0 && self.tokens[self.pos - 1].lexeme == "integer".to_owned();
        let mut width: usize = if is_integer { 32 } else { 1 };
        if self.kind() == TokenKind::Signed {
            self.bump();
        }
        let mut packed_dim: Option<(Expr, Expr)> = None;
        if self.kind() == TokenKind::LBracket {
            self.bump();
            let msb = self.parse_expression(0);
            let lsb = if self.match_kind(TokenKind::Colon) {
                self.parse_expression(0)
            } else {
                msb.clone()
            };
            let _ = self.match_kind(TokenKind::RBracket);
            packed_dim = Some((msb, lsb));
            width = 1;
        }
        let mut names: Vec<String> = Vec::new();
        let mut unpacked_stems: Vec<(String, Expr, Expr)> = Vec::new();
        loop
            invariant
                advanced(*old(self), *self),
            decreases self.remaining(),
        {
            let stem = match self.expect_identifier("expected signal name") {
                Some(n) => n,
                None => {
                    break;
                },
            };
            if self.kind() == TokenKind::LBracket {
                self.bump();
                let hi = self.parse_expression(0);
                let lo = if self.match_kind(TokenKind::Colon) {
                    self.parse_expression(0)
                } else {
                    hi.clone()
                };
                let _ = self.match_kind(TokenKind::RBracket);
                unpacked_stems.push((stem.clone(), hi, lo));
                names.push(stem);
            } else {
                names.push(stem);
            }
            if !self.match_kind(TokenKind::Comma) {
                break;
            }
        }
        self.skip_to_semicolon();
        if names.len() == 0 {
            None
        } else {
            Some(CstModuleItem::NetDecl { kind, packed_dim, width, names, unpacked_stems, decl_dir })
        }
    }

    /// `wire` / `reg` / `integer` / `logic` declaration (`wire` gives a wire, the rest a reg).
    fn parse_net_decl(&mut self) -> (r: Option<CstModuleItem>)
        requires
            old(self).wf(),
        ensures
            progressed(*old(self), *final(self)),
            r matches Some(CstModuleItem::NetDecl { kind, decl_dir, .. }) ==> decl_dir is None && (kind
                == NetKind::Wire <==> old(self).cur_kind() == TokenKind::Wire),
            r is Some ==> r->0 is NetDecl,
    {
        let kind = if self.kind() == TokenKind::Wire { NetKind::Wire } else { NetKind::Reg };
        self.bump();
        self.parse_net_decl_core(kind, None)
    }

    /// `input` / `output` / `inout` declaration in a module body (a wire with its direction).
    fn parse_directional_net_decl(&mut self) -> (r: Option<CstModuleItem>)
        requires
            old(self).wf(),
        ensures
            advanced(*old(self), *final(self)),
            (old(self).cur_kind() == TokenKind::Input || old(self).cur_kind() == TokenKind::Output
                || old(self).cur_kind() == TokenKind::Inout) ==> final(self).pos > old(self).pos,
            !(old(self).cur_kind() == TokenKind::Input || old(self).cur_kind() == TokenKind::Output
                || old(self).cur_kind() == TokenKind::Inout) ==> r is None && final(self).pos == old(self).pos,
            r matches Some(CstModuleItem::NetDecl { kind, decl_dir, .. }) ==> kind == NetKind::Wire && decl_dir
                == Some(old(self).tokens@[old(self).pos as int].lexeme),
            r is Some ==> r->0 is NetDecl,
    {
        let k = self.kind();
        if !(k == TokenKind::Input || k == TokenKind::Output || k == TokenKind::Inout) {
            return None;
        }
        let dir = self.tokens[self.pos].lexeme.clone();
        self.bump();
        self.parse_net_decl_core(NetKind::Wire, Some(dir))
    }

    /// `assign target = expr;`.
    fn parse_assign(&mut self) -> (r: Option<CstModuleItem>)
        requires
            old(self).wf(),
        ensures
            progressed(*old(self), *final(self)),
            r is Some ==> r->0 is Assign,
            r matches Some(CstModuleItem::Assign { target, expr }) ==> exists|sp: Span|
                #[trigger] assign_rel(old(self).tokens@, old(self).pos as int, target, expr, sp, final(self).pos as int),
    {
        let ghost toks = self.tokens@;
        let ghost p = self.pos as int;
        self.bump();
        let reg = match self.expect_identifier("expected left-hand side of assign") {
            Some(name) => name,
            None => {
                self.skip_to_semicolon();
                return None;
            },
        };
        let ghost rv = reg;
        let target = self.parse_assign_target_suffix(reg);
        let ghost t = self.pos as int;
        let ghost st = choose|sp: Span| #[trigger] target_rel(toks, p + 1, rv, target, sp, t);
        let _ = self.match_kind(TokenKind::Eq);
        let expr = self.parse_expression(0);
        let ghost k = self.pos as int;
        let ghost se = choose|sp: Span| #[trigger] expr_rel(toks, opt_past(toks, t, TokenKind::Eq), 0, expr, sp, k);
        self.skip_to_semicolon();
        proof {
            assert(target_reg(target) == rv);
            assert(assign_rel(toks, p, target, expr, Span { ends: seq![t, k], parts: seq![st, se] }, self.pos as int));
        }
        Some(CstModuleItem::Assign { target, expr })
    }

    /// `Mod [#(.P(expr), ...)] inst ( .port(expr), ... | expr, ... );` starting at the module name.
    fn parse_instance_like(&mut self) -> (r: Option<CstModuleItem>)
        requires
            old(self).wf(),
        ensures
            progressed(*old(self), *final(self)),
            r matches Some(CstModuleItem::Instance { module_name, .. }) ==> module_name
                == old(self).tokens@[old(self).pos as int].lexeme,
            r is Some ==> r->0 is Instance,
    {
        let module_name = self.tokens[self.pos].lexeme.clone();
        self.bump();
        let mut parameter_assignments: Vec<(String, Expr)> = Vec::new();
        if self.match_kind(TokenKind::Hash) {
            if self.match_kind(TokenKind::LParen) {
                while self.kind() != TokenKind::RParen && self.kind() != TokenKind::Eof
                    invariant
                        progressed(*old(self), *self),
                    decreases self.remaining(),
                {
                    if !self.match_kind(TokenKind::Dot) {
                        break;
                    }
                    let pname = match self.expect_identifier("expected parameter name after `.`") {
                        Some(n) => n,
                        None => {
                            break;
                        },
                    };
                    if !self.match_kind(TokenKind::LParen) {
                        break;
                    }
                    let rhs = self.parse_expression(0);
                    let _ = self.match_kind(TokenKind::RParen);
                    parameter_assignments.push((pname, rhs));
                    let _ = self.match_kind(TokenKind::Comma);
                }
                let _ = self.match_kind(TokenKind::RParen);
            }
        }
        let instance_name = match self.expect_identifier("expected instance name after module name") {
            Some(n) => n,
            None => {
                return None;
            },
        };
        let mut connections: Vec<PortConnection> = Vec::new();
        if self.match_kind(TokenKind::LParen) {
            while self.kind() != TokenKind::RParen && self.kind() != TokenKind::Eof
                invariant
                    progressed(*old(self), *self),
                decreases self.remaining(),
            {
                if self.kind() == TokenKind::Dot {
                    self.bump();
                    match self.expect_identifier("expected port name") {
                        Some(port_name) => {
                            let _ = self.match_kind(TokenKind::LParen);
                            let expr = self.parse_expression(0);
                            let _ = self.match_kind(TokenKind::RParen);
                            connections.push(PortConnection { port_name: Some(port_name), expr });
                        },
                        None => {},
                    }
                } else {
                    let expr = self.parse_expression(0);
                    connections.push(PortConnection { port_name: None, expr });
                }
                if !self.match_kind(TokenKind::Comma) {
                    break;
                }
            }
            let _ = self.match_kind(TokenKind::RParen);
        }
        self.skip_to_semicolon();
        Some(CstModuleItem::Instance { module_name, parameter_assignments, instance_name, connections })
    }

    /// `initial stmt`, `always #delay stmt` (a clock generator: sensitivity `*`, body led by the
    /// delay), or `always @(...) stmt`.
    fn parse_always(&mut self) -> (r: Option<CstModuleItem>)
        requires
            old(self).wf(),
            old(self).cur_kind() == TokenKind::Always || old(self).cur_kind() == TokenKind::Initial,
        ensures
            progressed(*old(self), *final(self)),
            r is Some,
            old(self).cur_kind() == TokenKind::Initial ==> r->0 is Initial,
            old(self).cur_kind() != TokenKind::Initial ==> r->0 is Always,
            r matches Some(CstModuleItem::Initial { body }) ==> exists|sp: Span|
                #[trigger] block_rel(old(self).tokens@, old(self).pos + 1, body@, sp, final(self).pos as int),
            r matches Some(CstModuleItem::Always { sensitivity, body }) ==> exists|sp: Span|
                #[trigger] always_rel(old(self).tokens@, old(self).pos as int, sensitivity, body@, sp, final(self).pos as int),
    {
        let ghost toks = self.tokens@;
        let ghost p = self.pos as int;
        let is_initial = self.kind() == TokenKind::Initial;
        self.bump();
        if is_initial {
            let body = self.parse_stmt_block();
            let ghost sp = choose|sp: Span| #[trigger] block_rel(toks, p + 1, body@, sp, self.pos as int);
            let ghost bv = body@;
            let r = Some(CstModuleItem::Initial { body });
            assert(r matches Some(CstModuleItem::Initial { body: b }) && b@ == bv);
            return r;
        }
        if self.kind() == TokenKind::Hash {
            let ticks = self.parse_delay_numeric_after_hash();
            let ghost b = self.pos as int;
            let mut body: Vec<CstStmt> = vec![CstStmt::Delay(ticks)];
            let ghost mut ss = Span { ends: Seq::empty(), parts: Seq::empty() };
            match self.parse_stmt() {
                Some(st) => {
                    proof {
                        ss = choose|sp: Span| #[trigger] stmt_rel(toks, b, st, sp, self.pos as int);
                    }
                    body.push(st);
                },
                None => {},
            }
            let ghost bv = body@;
            let r = Some(CstModuleItem::Always { sensitivity: Sensitivity::Star, body });
            proof {
                assert(always_rel(toks, p, Sensitivity::Star, bv, Span { ends: seq![b], parts: seq![ss] }, self.pos as int));
                assert(r matches Some(CstModuleItem::Always { sensitivity: s0, body: b0 }) && s0 == Sensitivity::Star
                    && b0@ == bv);
            }
            return r;
        }
        let sensitivity = self.parse_sensitivity();
        let ghost b = self.pos as int;
        let body = self.parse_stmt_block();
        let ghost sb = choose|sp: Span| #[trigger] block_rel(toks, b, body@, sp, self.pos as int);
        let ghost bv = body@;
        let ghost sv = sensitivity;
        let r = Some(CstModuleItem::Always { sensitivity, body });
        proof {
            assert(always_rel(toks, p, sv, bv, Span { ends: seq![b], parts: seq![sb] }, self.pos as int));
            assert(r matches Some(CstModuleItem::Always { sensitivity: s0, body: b0 }) && s0 == sv && b0@ == bv);
        }
        r
    }
}


impl<'a> Parser<'a> {
    /// `generate for (i = a; i < N; i = step) begin [: name] <one instance> end endgenerate`.
    /// Any other shape is skipped up to `endgenerate` and yields nothing.
    fn parse_generate_construct(&mut self) -> (r: Vec<CstModuleItem>)
        requires
            old(self).wf(),
            old(self).cur_kind() == TokenKind::Generate,
        ensures
            progressed(*old(self), *final(self)),
            r@.len() <= 1,
            forall|i: int| 0 <= i < r@.len() ==> r@[i] is GenerateFor,
            old(self).tokens@[old(self).pos + 1].kind != TokenKind::For ==> r@.len() == 0,
            r@.len() == 1 ==> {
                let p = old(self).pos as int;
                &&& p + 3 < old(self).tokens@.len()
                &&& old(self).tokens@[p + 1].kind == TokenKind::For
                &&& old(self).tokens@[p + 2].kind == TokenKind::LParen
                &&& old(self).tokens@[p + 3].kind == TokenKind::Identifier
                &&& r@[0] matches CstModuleItem::GenerateFor { loop_var, .. }
                &&& loop_var@ == old(self).tokens@[p + 3].lexeme@
                &&& final(self).tokens@[final(self).pos - 1].kind == TokenKind::Endgenerate
            },
            final(self).cur_kind() == TokenKind::Eof || final(self).tokens@[final(self).pos - 1].kind
                == TokenKind::Endgenerate,
    {
        let ghost p = self.pos as int;
        self.bump();
        if self.kind() != TokenKind::For {
            self.skip_to_endgenerate();
            return Vec::new();
        }
        self.bump();
        if !self.match_kind(TokenKind::LParen) {
            self.skip_to_endgenerate();
            return Vec::new();
        }
        assert(self.pos == p + 3);
        let loop_var = match self.expect_identifier("expected loop variable") {
            Some(v) => v,
            None => {
                self.skip_to_endgenerate();
                return Vec::new();
            },
        };
        if !self.match_kind(TokenKind::Eq) {
            self.skip_to_endgenerate();
            return Vec::new();
        }
        let _init = self.parse_expression(0);
        if !self.match_kind(TokenKind::Semicolon) {
            self.skip_to_endgenerate();
            return Vec::new();
        }
        if self.expect_identifier("expected loop variable").is_none() {
            self.skip_to_endgenerate();
            return Vec::new();
        }
        if !self.match_kind(TokenKind::Lt) {
            self.skip_to_endgenerate();
            return Vec::new();
        }
        let upper_expr = self.parse_expression(0);
        if !self.match_kind(TokenKind::Semicolon) {
            self.skip_to_endgenerate();
            return Vec::new();
        }
        if self.expect_identifier("expected loop variable").is_none() {
            self.skip_to_endgenerate();
            return Vec::new();
        }
        if !self.match_kind(TokenKind::Eq) {
            self.skip_to_endgenerate();
            return Vec::new();
        }
        let _step = self.parse_expression(0);
        if !self.match_kind(TokenKind::RParen) {
            self.skip_to_endgenerate();
            return Vec::new();
        }
        if !self.match_kind(TokenKind::Begin) {
            self.skip_to_endgenerate();
            return Vec::new();
        }
        if self.kind() == TokenKind::Colon {
            self.bump();
            let _ = self.expect_identifier("expected block name after begin:");
        }
        let item = self.parse_instance_like();
        let (module_name, parameter_assignments, instance_stem, connections) = match item {
            Some(CstModuleItem::Instance { module_name, parameter_assignments, instance_name, connections }) => (
                module_name,
                parameter_assignments,
                instance_name,
                connections,
            ),
            _ => {
                self.skip_to_endgenerate();
                return Vec::new();
            },
        };
        if !self.match_kind(TokenKind::End) {
            self.skip_to_endgenerate();
            return Vec::new();
        }
        if !self.match_kind(TokenKind::Endgenerate) {
            self.skip_to_endgenerate();
            return Vec::new();
        }
        vec![CstModuleItem::GenerateFor {
            loop_var,
            upper_expr,
            module_name,
            parameter_assignments,
            instance_stem,
            connections,
        }]
    }

    /// Whether `k` may start a body item that must not appear inside a module header.
    fn header_breaker(k: TokenKind) -> (b: bool)
        ensures
            b == (k == TokenKind::Assign || k == TokenKind::Wire || k == TokenKind::Reg || k == TokenKind::Logic
                || k == TokenKind::Module || k == TokenKind::Endmodule),
    {
        k == TokenKind::Assign || k == TokenKind::Wire || k == TokenKind::Reg || k == TokenKind::Logic
            || k == TokenKind::Module || k == TokenKind::Endmodule
    }

    /// One `module ... endmodule`, the cursor on `module`. ANSI port lists repeat the last
    /// direction and width for names that follow without one (`output [6:0] a, b`); a list of
    /// bare names gives ports without direction and width 1. `None` when the name is missing.
    /// One port of an ANSI header list, from a direction keyword or a bare name under the
    /// cursor ([`port_entry`], after the port `prev`); `last_dir` and `last_width` hold the
    /// direction and width of the port before (`None` and 1 before the first) and are set to
    /// this port's. `None`, with an error recorded, when no name follows.
    fn parse_header_port(
        &mut self,
        last_dir: &mut Option<String>,
        last_width: &mut usize,
        params: &Vec<(String, Expr)>,
        Ghost(prev): Ghost<Option<Port>>,
    ) -> (r: Option<Port>)
        requires
            old(self).wf(),
            is_direction(old(self).cur_kind()) || old(self).cur_kind() == TokenKind::Identifier,
            *old(last_dir) == (match prev {
                Some(pp) => pp.direction,
                None => None,
            }),
            *old(last_width) == (match prev {
                Some(pp) => pp.width,
                None => 1,
            }),
        ensures
            progressed(*old(self), *final(self)),
            r matches Some(port) ==> port_entry(old(self).tokens@, old(self).pos as int, params@, prev, port, final(self).pos - 1)
                && *final(last_dir) == port.direction && *final(last_width) == port.width,
            r matches Some(port) ==> (prev is None ==> (first_plain_port(old(self).tokens@, old(self).pos - 1) matches Some((d, n))
                ==> port.name@ == n && port.width == 1 && match d {
                Some(dd) => port.direction matches Some(x) && x@ == dd,
                None => port.direction is None,
            })),
            r is None ==> has_error(final(self).diagnostics@),
            r is None ==> first_plain_port(old(self).tokens@, old(self).pos - 1) is None,
    {
        let ghost toks = self.tokens@;
        let ghost s = self.pos as int;
        let k = self.kind();
        let direction = if k == TokenKind::Input || k == TokenKind::Output || k == TokenKind::Inout {
            let d = self.tokens[self.pos].lexeme.clone();
            self.bump();
            *last_dir = Some(d.clone());
            let k2 = self.kind();
            if k2 == TokenKind::Wire || k2 == TokenKind::Reg || k2 == TokenKind::Logic {
                self.bump();
            }
            if self.kind() == TokenKind::Signed {
                self.bump();
            }
            if self.kind() == TokenKind::LBracket {
                let ghost c = self.pos as int;
                assert(c == port_range_at(toks, s));
                self.bump();
                let msb = self.parse_expression(0);
                let ghost k2 = self.pos as int;
                if self.match_kind(TokenKind::Colon) {
                    let lsb = self.parse_expression(0);
                    let ghost k3 = self.pos as int;
                    let _ = self.match_kind(TokenKind::RBracket);
                    *last_width = Self::eval_port_packed_width(&msb, &lsb, params);
                    assert(port_range_end(toks, k2, params@, msb, *last_width, self.pos as int));
                    assert(exists|m: Expr, a: int|
                        #[trigger] parses_expr(toks, c + 1, 0, m, a) && port_range_end(toks, a, params@, m, *last_width, self.pos as int));
                } else {
                    let _ = self.match_kind(TokenKind::RBracket);
                    *last_width = Self::eval_port_packed_width(&msb, &msb, params);
                    assert(port_range_end(toks, k2, params@, msb, *last_width, self.pos as int));
                    assert(exists|m: Expr, a: int|
                        #[trigger] parses_expr(toks, c + 1, 0, m, a) && port_range_end(toks, a, params@, m, *last_width, self.pos as int));
                }
            } else {
                *last_width = 1;
            }
            Some(d)
        } else {
            if last_dir.is_none() {
                *last_width = 1;
            }
            match last_dir {
                Some(d) => Some(d.clone()),
                None => None,
            }
        };
        let ghost n = self.pos as int;
        let name = match self.expect_identifier("expected port name") {
            Some(x) => x,
            None => {
                assert(self.diagnostics@[self.diagnostics@.len() - 1].severity == Severity::Error);
                return None;
            },
        };
        let port = Port { direction, name, width: *last_width };
        proof {
            reveal(port_entry);
            if is_direction(toks[s].kind) && toks[port_range_at(toks, s)].kind == TokenKind::LBracket {
                let c = port_range_at(toks, s);
                assert(exists|msb: Expr, k2: int|
                    #[trigger] parses_expr(toks, c + 1, 0, msb, k2) && port_range_end(toks, k2, params@, msb, port.width, n));
            }
        }
        Some(port)
    }

    #[verifier::rlimit(80)]
    fn parse_module(&mut self) -> (r: Option<CstModule>)
        requires
            old(self).wf(),
            old(self).cur_kind() == TokenKind::Module,
        ensures
            progressed(*old(self), *final(self)),
            (r is Some) == (old(self).tokens@[old(self).pos + 1].kind == TokenKind::Identifier),
            r is None ==> has_error(final(self).diagnostics@),
            r matches Some(m) ==> module_header_parsed(old(self).tokens@, m, final(self).diagnostics@),
            r matches Some(m) ==> module_items_parsed(old(self).tokens@, m),
            r matches Some(m) ==> m.path == old(self).file.path && old(self).pos + 1 < old(self).tokens@.len()
                && m.name@ == old(self).tokens@[old(self).pos + 1].lexeme@,
            r matches Some(m) ==> (old(self).tokens@[old(self).pos + 2].kind != TokenKind::LParen
                && old(self).tokens@[old(self).pos + 2].kind != TokenKind::Hash ==> m.ports@.len() == 0),
            r matches Some(m) ==> (old(self).tokens@[old(self).pos + 2].kind == TokenKind::LParen ==> header_ports_parsed(
                old(self).tokens@,
                old(self).pos + 3,
                m.module_parameters@,
                m.ports@,
                final(self).diagnostics@,
            )),
            r matches Some(m) ==> (old(self).tokens@[old(self).pos + 2].kind == TokenKind::LParen ==> (first_plain_port(
                old(self).tokens@,
                old(self).pos + 2,
            ) matches Some((d, n)) ==> m.ports@.len() > 0 && m.ports@[0].name@ == n && m.ports@[0].width == 1 && match d {
                Some(dd) => m.ports@[0].direction matches Some(x) && x@ == dd,
                None => m.ports@[0].direction is None,
            })),
    {
        let ghost p = self.pos as int;
        let ghost toks = self.tokens@;
        self.bump();
        let name = match self.expect_identifier("expected module name") {
            Some(n) => n,
            None => {
                return None;
            },
        };
        let mut ports: Vec<Port> = Vec::new();
        let module_parameters = self.parse_module_parameter_list();
        let ghost q = p + 2;
        let ghost fp = first_plain_port(toks, q);
        let ghost mut starts: Seq<int> = Seq::empty();
        let ghost mut names: Seq<int> = Seq::empty();
        if self.match_kind(TokenKind::LParen) {
            let mut last_port_direction: Option<String> = None;
            let mut last_port_width: usize = 1;
            loop
                invariant_except_break
                    last_port_direction == (if ports@.len() == 0 {
                        None
                    } else {
                        ports@.last().direction
                    }),
                    last_port_width == (if ports@.len() == 0 {
                        1
                    } else {
                        ports@.last().width
                    }),
                    toks[q].kind == TokenKind::LParen ==> self.pos == (if ports@.len() == 0 {
                        q + 1
                    } else {
                        names.last() + 2
                    }),
                    toks[q].kind == TokenKind::LParen && ports@.len() > 0 ==> toks[names.last() + 1].kind == TokenKind::Comma,
                invariant
                    progressed(*old(self), *self),
                    toks[q].kind == TokenKind::LParen ==> ports_rel(toks, q + 1, module_parameters@, ports@, starts, names),
                    toks == old(self).tokens@,
                    q == old(self).pos + 2,
                    fp == first_plain_port(toks, q),
                    ports@.len() == 0 ==> (toks[q].kind == TokenKind::LParen && self.pos == q + 1 && last_port_direction is None)
                        || fp is None || toks[q].kind != TokenKind::LParen,
                    ports@.len() > 0 && toks[q].kind == TokenKind::LParen ==> (fp matches Some((d, n)) ==> ports@[0].name@ == n && ports@[0].width == 1 && match d {
                        Some(dd) => ports@[0].direction matches Some(x) && x@ == dd,
                        None => ports@[0].direction is None,
                    }),
                ensures
                    progressed(*old(self), *self),
                    toks[q].kind == TokenKind::LParen ==> ports_rel(toks, q + 1, module_parameters@, ports@, starts, names),
                    toks[q].kind == TokenKind::LParen ==> ports_end(toks, q + 1, ports@.len(), names, self.diagnostics@),
                    ports@.len() == 0 ==> fp is None || toks[q].kind != TokenKind::LParen,
                    ports@.len() > 0 && toks[q].kind == TokenKind::LParen ==> (fp matches Some((d, n)) ==> ports@[0].name@ == n
                        && ports@[0].width == 1 && match d {
                        Some(dd) => ports@[0].direction matches Some(x) && x@ == dd,
                        None => ports@[0].direction is None,
                    }),
                decreases self.remaining(),
            {
                let ghost start_pos = self.pos as int;
                let k = self.kind();
                if k == TokenKind::RParen || k == TokenKind::Eof {
                    break;
                }
                if !(k == TokenKind::Input || k == TokenKind::Output || k == TokenKind::Inout || k == TokenKind::Identifier) {
                    self.error_at_current("expected port direction or name");
                    assert(self.diagnostics@[self.diagnostics@.len() - 1].severity == Severity::Error);
                    break;
                }
                let ghost prev = if ports@.len() == 0 {
                    None
                } else {
                    Some(ports@.last())
                };
                let port = match self.parse_header_port(
                    &mut last_port_direction,
                    &mut last_port_width,
                    &module_parameters,
                    Ghost(prev),
                ) {
                    Some(x) => x,
                    None => {
                        break;
                    },
                };
                let ghost name_pos = self.pos - 1;
                let ghost before_ports = ports@;
                ports.push(port);
                proof {
                    if toks[q].kind == TokenKind::LParen {
                        assert(ports@.last() == port);
                        lemma_ports_push(
                            toks,
                            q + 1,
                            module_parameters@,
                            before_ports,
                            starts,
                            names,
                            ports@.last(),
                            start_pos,
                            name_pos,
                        );
                        assert(ports@ == before_ports.push(ports@.last()));
                        starts = starts.push(start_pos);
                        names = names.push(name_pos);
                    }
                }
                proof {
                    if before_ports.len() > 0 {
                        assert(ports@[0] == before_ports[0]);
                    } else if fp is Some && toks[q].kind == TokenKind::LParen {
                        assert(start_pos == q + 1);
                        assert(ports@[0] == port);
                    }
                }
                if !self.match_kind(TokenKind::Comma) {
                    break;
                }
            }
            let _ = self.match_kind(TokenKind::RParen);
        }
        let ghost d_ports = self.diagnostics@;
        while self.kind() != TokenKind::Semicolon && self.kind() != TokenKind::Eof
            invariant
                progressed(*old(self), *self),
                kept_diagnostics(d_ports, self.diagnostics@),
            decreases self.remaining(),
        {
            if Self::header_breaker(self.kind()) {
                self.error_at_current("expected ';' after module header");
                break;
            }
            self.bump();
        }
        let _ = self.match_kind(TokenKind::Semicolon);
        let mut items: Vec<CstModuleItem> = Vec::new();
        let ghost a = self.pos as int;
        let ghost mut si = Span { ends: Seq::empty(), parts: Seq::empty() };
        while self.kind() != TokenKind::Endmodule && self.kind() != TokenKind::Eof
            invariant
                progressed(*old(self), *self),
                kept_diagnostics(d_ports, self.diagnostics@),
                toks == old(self).tokens@,
                items_rel(toks, a, items@, si, self.pos as int),
            decreases self.remaining(),
        {
            let ghost j = self.pos as int;
            let ghost before = items@;
            let ghost mut sst = Span { ends: Seq::empty(), parts: Seq::empty() };
            let k = self.kind();
            if k == TokenKind::Genvar {
                self.skip_genvar_statement();
            } else if k == TokenKind::Generate {
                let mut inner = self.parse_generate_construct();
                items.append(&mut inner);
            } else if k == TokenKind::Input || k == TokenKind::Output || k == TokenKind::Inout {
                match self.parse_directional_net_decl() {
                    Some(item) => {
                        items.push(item);
                    },
                    None => {},
                }
            } else if k == TokenKind::Wire || k == TokenKind::Reg || k == TokenKind::Integer || k == TokenKind::Logic {
                match self.parse_net_decl() {
                    Some(item) => {
                        items.push(item);
                    },
                    None => {},
                }
            } else if k == TokenKind::Assign {
                match self.parse_assign() {
                    Some(item) => {
                        proof {
                            sst = choose|sp: Span|
                                #[trigger] assign_rel(toks, j, item->target, item->expr, sp, self.pos as int);
                        }
                        items.push(item);
                    },
                    None => {},
                }
            } else if k == TokenKind::Always || k == TokenKind::Initial {
                match self.parse_always() {
                    Some(item) => {
                        proof {
                            if k == TokenKind::Initial {
                                sst = choose|sp: Span| #[trigger] block_rel(toks, j + 1, item->Initial_body@, sp, self.pos as int);
                            } else {
                                sst = choose|sp: Span|
                                    #[trigger] always_rel(toks, j, item->sensitivity, item->Always_body@, sp, self.pos as int);
                            }
                        }
                        items.push(item);
                    },
                    None => {},
                }
            } else if k == TokenKind::Parameter || k == TokenKind::Localparam {
                self.bump();
                match self.parse_param_assign_list_after_keyword() {
                    Some(assignments) => {
                        items.push(CstModuleItem::LocalParam { assignments });
                    },
                    None => {
                        self.skip_to_semicolon();
                    },
                }
            } else if k == TokenKind::Identifier {
                match self.parse_instance_like() {
                    Some(item) => {
                        items.push(item);
                    },
                    None => {
                        self.skip_to_semicolon();
                    },
                }
            } else {
                self.bump();
            }
            proof {
                let n = before.len() as int;
                assert(items@.take(n) =~= before);
                assert(item_step(toks, j, items@.skip(n), sst, self.pos as int));
                let prev = si;
                si = Span { ends: seq![j, n], parts: seq![prev, sst] };
                assert(items_rel(toks, a, items@, si, self.pos as int));
            }
        }
        let ghost z = self.pos as int;
        let _ = self.match_kind(TokenKind::Endmodule);
        proof {
            assert(items_rel(toks, a, items@, si, z));
            if toks[q].kind == TokenKind::LParen {
                if has_error(d_ports) {
                    lemma_has_error_kept(d_ports, self.diagnostics@);
                }
                assert(ports_rel(toks, q + 1, module_parameters@, ports@, starts, names));
                reveal(header_ports_parsed);
            }
            assert(module_keyword_at(toks, p));
            reveal(module_header_parsed);
        }
        let m = CstModule { name, ports, module_parameters, path: self.file.path.clone(), items };
        proof {
            assert(items_rel(toks, a, m.items@, si, z));
            assert(toks[z].kind == TokenKind::Endmodule || toks[z].kind == TokenKind::Eof);
            assert(module_items_parsed(toks, m));
        }
        Some(m)
    }

    /// All modules of the file; tokens outside modules are skipped. Returns them with the
    /// diagnostics gathered so far, leaving none behind.
    fn parse(&mut self) -> (r: (CstFile, Vec<Diagnostic>))
        requires
            old(self).wf(),
        ensures
            final(self).wf(),
            final(self).tokens@ == old(self).tokens@,
            final(self).cur_kind() == TokenKind::Eof,
            kept_diagnostics(old(self).diagnostics@, r.1@),
            forall|i: int| 0 <= i < r.0.modules@.len() ==> module_header_parsed(old(self).tokens@, #[trigger] r.0.modules@[i], r.1@),
            forall|i: int| 0 <= i < r.0.modules@.len() ==> module_items_parsed(old(self).tokens@, #[trigger] r.0.modules@[i]),
            first_kind_from(old(self).tokens@, old(self).pos as int, TokenKind::Module) matches Some(q) ==> (
            old(self).tokens@[q + 1].kind != TokenKind::Identifier ==> has_error(r.1@)),
            forall|i: int| 0 <= i < r.0.modules@.len() ==> (#[trigger] r.0.modules@[i]).path == old(self).file.path,
            forall|i: int|
                0 <= i < r.0.modules@.len() ==> declared_module_name(old(self).tokens@, (#[trigger] r.0.modules@[i]).name@),
            first_kind_from(old(self).tokens@, old(self).pos as int, TokenKind::Module) is None ==> r.0.modules@.len()
                == 0,
            first_kind_from(old(self).tokens@, old(self).pos as int, TokenKind::Module) matches Some(q) ==> (
            old(self).tokens@[q + 1].kind == TokenKind::Identifier ==> r.0.modules@.len() > 0
                && r.0.modules@[0].name@ == old(self).tokens@[q + 1].lexeme@),
            final(self).diagnostics@.len() == 0,
    {
        let mut modules: Vec<CstModule> = Vec::new();
        let ghost f = first_kind_from(self.tokens@, self.pos as int, TokenKind::Module);
        proof {
            lemma_first_kind_from(self.tokens@, self.pos as int, TokenKind::Module);
        }
        while self.kind() != TokenKind::Eof
            invariant
                advanced(*old(self), *self),
                f == first_kind_from(old(self).tokens@, old(self).pos as int, TokenKind::Module),
                f matches Some(q) ==> old(self).pos <= q && self.tokens@[q].kind == TokenKind::Module,
                forall|i: int| 0 <= i < modules@.len() ==> module_header_parsed(old(self).tokens@, #[trigger] modules@[i], self.diagnostics@),
                forall|i: int| 0 <= i < modules@.len() ==> module_items_parsed(old(self).tokens@, #[trigger] modules@[i]),
                f matches Some(q) ==> (self.pos > q && self.tokens@[q + 1].kind != TokenKind::Identifier ==> has_error(
                    self.diagnostics@,
                )),
                f is None ==> modules@.len() == 0,
                forall|i: int| 0 <= i < modules@.len() ==> (#[trigger] modules@[i]).path == old(self).file.path,
                forall|i: int|
                    0 <= i < modules@.len() ==> declared_module_name(old(self).tokens@, (#[trigger] modules@[i]).name@),
                modules@.len() == 0 ==> (first_kind_from(self.tokens@, self.pos as int, TokenKind::Module) == f || (
                f matches Some(q) && self.tokens@[q + 1].kind != TokenKind::Identifier)),
                modules@.len() > 0 ==> (f matches Some(q) ==> (self.tokens@[q + 1].kind == TokenKind::Identifier
                    ==> modules@[0].name@ == self.tokens@[q + 1].lexeme@)),
            decreases self.remaining(),
        {
            let ghost diags0 = self.diagnostics@;
            proof {
                lemma_first_kind_before(old(self).tokens@, old(self).pos as int, TokenKind::Module, self.pos as int);
            }
            if self.kind() == TokenKind::Module {
                let ghost p0 = self.pos as int;
                let ghost before = modules@;
                match self.parse_module() {
                    Some(m) => {
                        modules.push(m);
                        proof {
                            assert forall|i: int| 0 <= i < modules@.len() implies module_header_parsed(
                                old(self).tokens@,
                                #[trigger] modules@[i],
                                self.diagnostics@,
                            ) by {
                                if i < before.len() {
                                    assert(modules@[i] == before[i]);
                                    lemma_module_header_kept(old(self).tokens@, before[i], diags0, self.diagnostics@);
                                }
                            }
                            assert forall|i: int| 0 <= i < modules@.len() implies module_items_parsed(
                                old(self).tokens@,
                                #[trigger] modules@[i],
                            ) by {
                                if i < before.len() {
                                    assert(modules@[i] == before[i]);
                                }
                            }
                            if before.len() == 0 {
                                assert(first_kind_from(self.tokens@, p0, TokenKind::Module) == Some(p0));
                                assert(modules@[0] == m);
                            } else {
                                assert(modules@[0] == before[0]);
                            }
                            assert(old(self).tokens@[p0].kind == TokenKind::Module);
                            assert(declared_module_name(old(self).tokens@, m.name@)) by {
                                reveal(declared_module_name);
                            }
                            assert forall|i: int| 0 <= i < modules@.len() implies declared_module_name(
                                old(self).tokens@,
                                (#[trigger] modules@[i]).name@,
                            ) by {
                                if i < before.len() {
                                    assert(modules@[i] == before[i]);
                                }
                            }
                        }
                    },
                    None => {
                        assert(first_kind_from(self.tokens@, p0, TokenKind::Module) == Some(p0));
                        assert forall|i: int| 0 <= i < modules@.len() implies module_header_parsed(
                            old(self).tokens@,
                            #[trigger] modules@[i],
                            self.diagnostics@,
                        ) by {
                            lemma_module_header_kept(old(self).tokens@, modules@[i], diags0, self.diagnostics@);
                        }
                    },
                }
                proof {
                    if f is Some {
                        let q = f->0;
                        if p0 > q && self.tokens@[q + 1].kind != TokenKind::Identifier {
                            lemma_has_error_kept(diags0, self.diagnostics@);
                        }
                    }
                }
            } else {
                let ghost p0 = self.pos as int;
                self.bump();
                assert(self.diagnostics@ == diags0);
                assert(first_kind_from(self.tokens@, p0, TokenKind::Module) == first_kind_from(
                    self.tokens@,
                    self.pos as int,
                    TokenKind::Module,
                ));
            }
        }
        proof {
            assert(self.pos == self.tokens@.len() - 1);
            assert(first_kind_from(self.tokens@, self.pos + 1, TokenKind::Module) is None);
        }
        let mut diagnostics: Vec<Diagnostic> = Vec::new();
        std::mem::swap(&mut diagnostics, &mut self.diagnostics);
        (CstFile { modules }, diagnostics)
    }
}

/// What a parse of `tokens` (of a file named `path`) into the modules `ms` and the diagnostics
/// `ds` is known to give: each module is defined in `path` and named by a `module` keyword of
/// the text; none where the text has no `module` keyword; the first one named as the first
/// `module` keyword's name; an error among `ds` where that keyword has no name after it; and
/// the header ports and the items of each module as its text declares them
/// ([`module_header_parsed`], [`module_items_parsed`]).
pub open spec fn parse_outcome(tokens: Seq<Token>, path: Seq<char>, ms: Seq<CstModule>, ds: Seq<Diagnostic>) -> bool {
    &&& forall|i: int| 0 <= i < ms.len() ==> (#[trigger] ms[i]).path@ == path
    &&& forall|i: int| 0 <= i < ms.len() ==> declared_module_name(tokens, (#[trigger] ms[i]).name@)
    &&& first_kind_from(tokens, 0, TokenKind::Module) is None ==> ms.len() == 0
    &&& first_module_name(tokens) matches Some(nm) ==> ms.len() > 0 && ms[0].name@ == nm
    &&& first_kind_from(tokens, 0, TokenKind::Module) matches Some(q) ==> (tokens[q + 1].kind != TokenKind::Identifier
        ==> has_error(ds))
    &&& forall|i: int| 0 <= i < ms.len() ==> module_header_parsed(tokens, #[trigger] ms[i], ds)
    &&& forall|i: int| 0 <= i < ms.len() ==> module_items_parsed(tokens, #[trigger] ms[i])
}

/// `hs` are the headers (name, ports, path) of the modules `ms`, in order.
pub open spec fn headers_of(hs: Seq<Module>, ms: Seq<CstModule>) -> bool {
    &&& hs.len() == ms.len()
    &&& forall|i: int|
        #![trigger hs[i]]
        0 <= i < hs.len() ==> hs[i].name == ms[i].name && hs[i].ports == ms[i].ports && hs[i].path == ms[i].path
}

/// Parses the tokens of `file` into modules and diagnostics.
pub(crate) fn parse_cst(file: &SourceFile, tokens: &[Token]) -> (r: (CstFile, Vec<Diagnostic>))
    requires
        tokens_wf(tokens@),
    ensures
        forall|i: int| 0 <= i < r.0.modules@.len() ==> (#[trigger] r.0.modules@[i]).path == file.path,
        forall|i: int| 0 <= i < r.0.modules@.len() ==> declared_module_name(tokens@, (#[trigger] r.0.modules@[i]).name@),
        first_kind_from(tokens@, 0, TokenKind::Module) is None ==> r.0.modules@.len() == 0,
        first_module_name(tokens@) matches Some(nm) ==> r.0.modules@.len() > 0 && r.0.modules@[0].name@ == nm,
        parse_outcome(tokens@, file.path@, r.0.modules@, r.1@),
{
    let mut parser = Parser::new(file, tokens);
    let r = parser.parse();
    proof {
        lemma_first_kind_from(tokens@, 0, TokenKind::Module);
    }
    r
}

/// The header view (name, ports, path) of each module, in order.
pub fn module_headers(cst: CstFile) -> (r: Vec<Module>)
    ensures
        r@.len() == cst.modules@.len(),
        forall|i: int|
            #![trigger r@[i]]
            0 <= i < r@.len() ==> r@[i].name == cst.modules@[i].name && r@[i].ports == cst.modules@[i].ports
                && r@[i].path == cst.modules@[i].path,
{
    let mut rest = cst.modules;
    let ghost orig = rest@;
    let mut reversed: Vec<Module> = Vec::new();
    while rest.len() > 0
        invariant
            rest@ == orig.take(rest@.len() as int),
            rest@.len() + reversed@.len() == orig.len(),
            forall|j: int|
                #![trigger reversed@[j]]
                0 <= j < reversed@.len() ==> reversed@[j].name == orig[orig.len() - 1 - j].name
                    && reversed@[j].ports == orig[orig.len() - 1 - j].ports && reversed@[j].path == orig[orig.len()
                    - 1 - j].path,
        decreases rest.len(),
    {
        let m = rest.pop().unwrap();
        reversed.push(Module { name: m.name, ports: m.ports, path: m.path });
    }
    let mut out: Vec<Module> = Vec::new();
    while reversed.len() > 0
        invariant
            out@.len() + reversed@.len() == orig.len(),
            forall|j: int|
                #![trigger reversed@[j]]
                0 <= j < reversed@.len() ==> reversed@[j].name == orig[orig.len() - 1 - j].name
                    && reversed@[j].ports == orig[orig.len() - 1 - j].ports && reversed@[j].path == orig[orig.len()
                    - 1 - j].path,
            forall|j: int|
                #![trigger out@[j]]
                0 <= j < out@.len() ==> out@[j].name == orig[j].name && out@[j].ports == orig[j].ports
                    && out@[j].path == orig[j].path,
        decreases reversed.len(),
    {
        let m = reversed.pop().unwrap();
        out.push(m);
    }
    out
}

/// Parses the tokens of `file` and keeps the module headers.
pub(crate) fn parse_tokens(file: &SourceFile, tokens: &[Token]) -> (r: ParseResult)
    requires
        tokens_wf(tokens@),
    ensures
        forall|i: int| 0 <= i < r.modules@.len() ==> (#[trigger] r.modules@[i]).path == file.path,
        forall|i: int| 0 <= i < r.modules@.len() ==> declared_module_name(tokens@, (#[trigger] r.modules@[i]).name@),
        first_kind_from(tokens@, 0, TokenKind::Module) is None ==> r.modules@.len() == 0,
        first_module_name(tokens@) matches Some(nm) ==> r.modules@.len() > 0 && r.modules@[0].name@ == nm,
        exists|ms: Seq<CstModule>|
            #[trigger] parse_outcome(tokens@, file.path@, ms, r.diagnostics@) && headers_of(r.modules@, ms),
{
    let (cst, diagnostics) = parse_cst(file, tokens);
    let ghost ms = cst.modules@;
    let modules = module_headers(cst);
    let r = ParseResult { modules, diagnostics };
    assert(parse_outcome(tokens@, file.path@, ms, r.diagnostics@) && headers_of(r.modules@, ms));
    r
}

/// `r` is `e` with every identifier spelled `var` replaced by the decimal literal of `k`.
pub open spec fn subst_rel(e: Expr, r: Expr, var: Seq<char>, k: i64) -> bool
    decreases e,
{
    match e {
        Expr::Ident(s) => if s@ == var {
            r matches Expr::Number(n) && n@ == signed_decimal_spec(k as int)
        } else {
            r == e
        },
        Expr::Number(_) => r == e,
        Expr::Binary { op, left, right } => r matches Expr::Binary { op: op2, left: l2, right: r2 } && op2 == op
            && subst_rel(*left, *l2, var, k) && subst_rel(*right, *r2, var, k),
        Expr::Unary { op, operand } => r matches Expr::Unary { op: op2, operand: o2 } && op2 == op && subst_rel(
            *operand,
            *o2,
            var,
            k,
        ),
        Expr::Ternary { cond, then_expr, else_expr } => r matches Expr::Ternary {
            cond: c2,
            then_expr: t2,
            else_expr: e2,
        } && subst_rel(*cond, *c2, var, k) && subst_rel(*then_expr, *t2, var, k) && subst_rel(
            *else_expr,
            *e2,
            var,
            k,
        ),
        Expr::Concat(es) => r matches Expr::Concat(rs) && subst_seq_rel(es@, rs@, var, k),
        Expr::Index { base, msb, lsb } => r matches Expr::Index { base: b2, msb: m2, lsb: l2 } && subst_rel(
            *base,
            *b2,
            var,
            k,
        ) && subst_rel(*msb, *m2, var, k) && match (lsb, l2) {
            (Some(a), Some(b)) => subst_rel(*a, *b, var, k),
            (None, None) => true,
            _ => false,
        },
        Expr::Clog2(a) => r matches Expr::Clog2(a2) && subst_rel(*a, *a2, var, k),
        Expr::Signed(a) => r matches Expr::Signed(a2) && subst_rel(*a, *a2, var, k),
    }
}

/// [`subst_rel`] element by element: `rs` is `es` with `var` replaced by `k` in each expression.
pub open spec fn subst_seq_rel(es: Seq<Expr>, rs: Seq<Expr>, var: Seq<char>, k: i64) -> bool
    decreases es,
{
    if es.len() == 0 {
        rs.len() == 0
    } else {
        rs.len() == es.len() && subst_seq_rel(es.subrange(0, es.len() - 1), rs.subrange(0, rs.len() - 1), var, k)
            && subst_rel(es[es.len() - 1], rs[rs.len() - 1], var, k)
    }
}

/// Replaces the generate-loop variable `loop_var` by the literal `k` throughout `e`.
pub fn subst_expr_loop_var(e: &Expr, loop_var: &str, k: i64) -> (r: Expr)
    ensures
        subst_rel(*e, r, loop_var@, k),
    decreases e,
{
    match e {
        Expr::Ident(s) => {
            if *s == loop_var.to_owned() {
                Expr::Number(i64_to_string(k))
            } else {
                Expr::Ident(s.clone())
            }
        },
        Expr::Number(n) => Expr::Number(n.clone()),
        Expr::Binary { op, left, right } => Expr::Binary {
            op: *op,
            left: Box::new(subst_expr_loop_var(left, loop_var, k)),
            right: Box::new(subst_expr_loop_var(right, loop_var, k)),
        },
        Expr::Unary { op, operand } => Expr::Unary {
            op: *op,
            operand: Box::new(subst_expr_loop_var(operand, loop_var, k)),
        },
        Expr::Ternary { cond, then_expr, else_expr } => Expr::Ternary {
            cond: Box::new(subst_expr_loop_var(cond, loop_var, k)),
            then_expr: Box::new(subst_expr_loop_var(then_expr, loop_var, k)),
            else_expr: Box::new(subst_expr_loop_var(else_expr, loop_var, k)),
        },
        Expr::Concat(es) => {
            Expr::Concat(subst_exprs(es, loop_var, k))
        },
        Expr::Index { base, msb, lsb } => Expr::Index {
            base: Box::new(subst_expr_loop_var(base, loop_var, k)),
            msb: Box::new(subst_expr_loop_var(msb, loop_var, k)),
            lsb: match lsb {
                Some(l) => Some(Box::new(subst_expr_loop_var(l, loop_var, k))),
                None => None,
            },
        },
        Expr::Clog2(a) => Expr::Clog2(Box::new(subst_expr_loop_var(a, loop_var, k))),
        Expr::Signed(a) => Expr::Signed(Box::new(subst_expr_loop_var(a, loop_var, k))),
    }
}

/// [`subst_expr_loop_var`] on each expression of `es`.
pub fn subst_exprs(es: &Vec<Expr>, loop_var: &str, k: i64) -> (r: Vec<Expr>)
    ensures
        subst_seq_rel(es@, r@, loop_var@, k),
    decreases es@,
{
    let mut out: Vec<Expr> = Vec::new();
    let mut i: usize = 0;
    while i < es.len()
        invariant
            i <= es.len(),
            out@.len() == i,
            subst_seq_rel(es@.take(i as int), out@, loop_var@, k),
        decreases es.len() - i,
    {
        assert(decreases_to!(es@ => es@[i as int]));
        let x = subst_expr_loop_var(&es[i], loop_var, k);
        let ghost prev = out@;
        out.push(x);
        assert(es@.take(i + 1).subrange(0, i as int) == es@.take(i as int));
        assert(out@.subrange(0, i as int) == prev);
        i = i + 1;
    }
    assert(es@.take(es.len() as int) == es@);
    out
}

/// The port connections of one generate-loop instance: `loop_var` replaced by `k` in each
/// expression, port names kept.
pub fn subst_port_connections(conns: &Vec<PortConnection>, loop_var: &str, k: i64) -> (r: Vec<PortConnection>)
    ensures
        r@.len() == conns@.len(),
        forall|i: int|
            #![trigger r@[i]]
            0 <= i < r@.len() ==> r@[i].port_name == conns@[i].port_name && subst_rel(
                conns@[i].expr,
                r@[i].expr,
                loop_var@,
                k,
            ),
{
    let mut out: Vec<PortConnection> = Vec::new();
    let mut i: usize = 0;
    while i < conns.len()
        invariant
            i <= conns.len(),
            out@.len() == i,
            forall|j: int|
                #![trigger out@[j]]
                0 <= j < i ==> out@[j].port_name == conns@[j].port_name && subst_rel(
                    conns@[j].expr,
                    out@[j].expr,
                    loop_var@,
                    k,
                ),
        decreases conns.len() - i,
    {
        let c = &conns[i];
        let port_name = match &c.port_name {
            Some(n) => Some(n.clone()),
            None => None,
        };
        out.push(PortConnection { port_name, expr: subst_expr_loop_var(&c.expr, loop_var, k) });
        i = i + 1;
    }
    out
}
} // verus!
