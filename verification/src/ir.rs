//! Intermediate representation: flattened module items, IR expressions and statements, the
//! lowering from the concrete syntax tree, parameter elaboration, and `#delay` sums.
use vstd::prelude::*;
use crate::arith::{arith_shr_i64, sign_extend_i64, sign_extend_spec};
use crate::delay_rational::{add_spec, ceil_div_spec, new_spec, sat_mul_spec, zero_delay, DelayRational};
use crate::parser::{
    port_width_spec, subst_port_connections, AssignTarget, BinaryOp, CaseArm, CstModule, CstModuleItem, CstStmt, EdgeKind, Expr, PortConnection,
    Sensitivity, UnaryOp,
};
use crate::strutil::{path_norm_spec, same_path, decimal_spec, u128_to_chars, chars_of, concat_chars, i64_to_chars, i64_to_string, join_name_index, joined_name, signed_decimal_spec, string_from_chars};
use crate::expr_const::{
    clog2_spec, const_eval_param_expr, resolve_from, resolve_into, const_eval_spec, parse_verilog_number, verilog_clog2, verilog_number_spec,
    bool_i64, div_or_zero, div_or_zero_exec, env_get, env_lookup, fold_ashr, rem_or_zero, rem_or_zero_exec,
    shift_amount, ParamEnv,
};
use crate::lexer::{lex, lexed, Token};
use crate::parser::{declared_module_name, first_module_name, parse_cst, parse_outcome, subst_rel};
use crate::{Diagnostic, Port, SourceFile};
use crate::codegen::binop_spec;
use crate::expr_const::param_binop_spec;

verus! {

/// IR expression tree.
#[derive(Debug, PartialEq)]
pub enum IrExpr {
    Const(i64),
    Ident(String),
    Binary { op: IrBinOp, left: Box<IrExpr>, right: Box<IrExpr> },
    Unary { op: IrUnaryOp, operand: Box<IrExpr> },
    Ternary { cond: Box<IrExpr>, then_expr: Box<IrExpr>, else_expr: Box<IrExpr> },
    Concat(Vec<IrExpr>),
    /// Packed part-select or bit-select `value[msb:lsb]` (inclusive; bit 0 is the LSB of `value`).
    PartSelect { value: Box<IrExpr>, msb: Box<IrExpr>, lsb: Box<IrExpr> },
    /// Read of an unpacked array, whose elements are the nets `stem__lo` .. `stem__hi`.
    MemRead { stem: String, index: Box<IrExpr> },
    /// `$signed(expr)`: the packed value read as signed at the inner expression's width.
    Signed(Box<IrExpr>),
}

/// Binary operators of the IR.
#[derive(Debug, Copy, Clone, PartialEq, Eq, Structural)]
pub enum IrBinOp {
    Add,
    Sub,
    Mul,
    Div,
    Mod,
    And,
    Or,
    Xor,
    Shl,
    Shr,
    /// `>>>`: arithmetic shift right (sign taken at the left operand's width in simulation).
    Ashr,
    LogAnd,
    LogOr,
    Eq,
    Ne,
    Lt,
    Le,
    Gt,
    Ge,
}

/// Unary operators of the IR.
#[derive(Debug, Copy, Clone, PartialEq, Eq, Structural)]
pub enum IrUnaryOp {
    Not,
    LogNot,
    Neg,
}

/// A whole design: modules and the diagnostics gathered while building it.
#[derive(Debug, Clone)]
pub struct IrProject {
    pub modules: Vec<IrModule>,
    pub diagnostics: Vec<Diagnostic>,
}

/// One lowered module.
#[derive(Debug, Clone)]
pub struct IrModule {
    pub name: String,
    pub path: String,
    pub ports: Vec<Port>,
    pub nets: Vec<IrNet>,
    pub assigns: Vec<IrAssign>,
    pub instances: Vec<IrInstance>,
    pub always_blocks: Vec<IrAlways>,
    pub initial_blocks: Vec<IrInitial>,
    /// Unpacked arrays, lowered to scalar nets `stem__k`; read through [`IrExpr::MemRead`].
    pub mem_arrays: Vec<IrMemArray>,
    /// Resolved `parameter` / `localparam` values (a later binding of a name hides earlier ones).
    pub resolved_parameters: ParamEnv,
}

/// An unpacked array `reg [w-1:0] stem[hi:lo];`.
#[derive(Debug, Clone, PartialEq, Eq)]
pub struct IrMemArray {
    pub stem: String,
    pub lo: i64,
    pub hi: i64,
    pub elem_width: usize,
}

/// A net and its packed width.
#[derive(Debug, Clone)]
pub struct IrNet {
    pub name: String,
    pub width: usize,
}

/// An `initial` block.
#[derive(Debug, Clone)]
pub struct IrInitial {
    pub stmts: Vec<IrStmt>,
}

/// A continuous assignment `assign lhs = rhs`.
#[derive(Debug, Clone)]
pub struct IrAssign {
    pub lhs: String,
    pub rhs: IrExpr,
}

/// A module instance.
#[derive(Debug, Clone)]
pub struct IrInstance {
    pub module_name: String,
    /// `#(.param(expr), ...)` lowered in the parent's environment; emptied by elaboration.
    pub parameter_assignments: Vec<(String, IrExpr)>,
    pub instance_name: String,
    pub connections: Vec<IrPortConn>,
}

/// A port connection, named (`.p(e)`) or positional until resolved.
#[derive(Debug, Clone)]
pub struct IrPortConn {
    pub port_name: Option<String>,
    pub expr: IrExpr,
}

/// Edge of a sensitivity entry.
#[derive(Debug, Clone, Copy, PartialEq, Eq, Structural)]
pub enum IrEdgeKind {
    Posedge,
    Negedge,
    Level,
}

/// One sensitivity entry.
#[derive(Debug, Clone)]
pub struct IrSensEntry {
    pub edge: IrEdgeKind,
    pub signal: String,
}

/// Sensitivity of an `always` block.
#[derive(Debug, Clone)]
pub enum IrSensitivity {
    Star,
    EdgeList(Vec<IrSensEntry>),
}

/// An `always` block.
#[derive(Debug, Clone)]
pub struct IrAlways {
    pub sensitivity: IrSensitivity,
    pub stmts: Vec<IrStmt>,
}

/// Procedural statement.
#[derive(Debug)]
pub enum IrStmt {
    BlockingAssign { lhs: String, rhs: IrExpr },
    NonBlockingAssign { lhs: String, rhs: IrExpr },
    /// Write of an unpacked array element whose index is not a compile-time constant.
    MemAssign { stem: String, index: IrExpr, rhs: IrExpr, nonblocking: bool },
    IfElse { cond: IrExpr, then_body: Vec<IrStmt>, else_body: Vec<IrStmt> },
    Case { expr: IrExpr, arms: Vec<IrCaseArm>, default: Vec<IrStmt> },
    For {
        init_var: String,
        init_val: IrExpr,
        cond: IrExpr,
        step_var: String,
        step_expr: IrExpr,
        body: Vec<IrStmt>,
    },
    Delay(DelayRational),
    SystemTask { name: String, args: Vec<IrExpr> },
}

/// One arm of a `case`.
#[derive(Debug)]
pub struct IrCaseArm {
    pub value: IrExpr,
    pub body: Vec<IrStmt>,
}

impl Clone for IrExpr {
    fn clone(&self) -> (r: Self)
        decreases self,
    {
        match self {
            IrExpr::Const(c) => IrExpr::Const(*c),
            IrExpr::Ident(s) => IrExpr::Ident(s.clone()),
            IrExpr::Binary { op, left, right } => IrExpr::Binary {
                op: *op,
                left: Box::new((**left).clone()),
                right: Box::new((**right).clone()),
            },
            IrExpr::Unary { op, operand } => IrExpr::Unary { op: *op, operand: Box::new((**operand).clone()) },
            IrExpr::Ternary { cond, then_expr, else_expr } => IrExpr::Ternary {
                cond: Box::new((**cond).clone()),
                then_expr: Box::new((**then_expr).clone()),
                else_expr: Box::new((**else_expr).clone()),
            },
            IrExpr::Concat(es) => IrExpr::Concat(clone_ir_exprs(es)),
            IrExpr::PartSelect { value, msb, lsb } => IrExpr::PartSelect {
                value: Box::new((**value).clone()),
                msb: Box::new((**msb).clone()),
                lsb: Box::new((**lsb).clone()),
            },
            IrExpr::MemRead { stem, index } => IrExpr::MemRead { stem: stem.clone(), index: Box::new((**index).clone()) },
            IrExpr::Signed(a) => IrExpr::Signed(Box::new((**a).clone())),
        }
    }
}

/// An element-by-element copy of `es`.
fn clone_ir_exprs(es: &Vec<IrExpr>) -> (r: Vec<IrExpr>)
    ensures
        r@.len() == es@.len(),
    decreases es@,
{
    let mut r: Vec<IrExpr> = Vec::new();
    let mut i: usize = 0;
    while i < es.len()
        invariant
            i <= es.len(),
            r@.len() == i,
        decreases es.len() - i,
    {
        assert(decreases_to!(es@ => es@[i as int]));
        r.push(es[i].clone());
        i = i + 1;
    }
    r
}

impl Clone for IrCaseArm {
    fn clone(&self) -> (r: Self)
        decreases self,
    {
        IrCaseArm { value: self.value.clone(), body: clone_ir_stmts(&self.body) }
    }
}

impl Clone for IrStmt {
    fn clone(&self) -> (r: Self)
        decreases self,
    {
        match self {
            IrStmt::BlockingAssign { lhs, rhs } => IrStmt::BlockingAssign { lhs: lhs.clone(), rhs: rhs.clone() },
            IrStmt::NonBlockingAssign { lhs, rhs } => IrStmt::NonBlockingAssign { lhs: lhs.clone(), rhs: rhs.clone() },
            IrStmt::MemAssign { stem, index, rhs, nonblocking } => IrStmt::MemAssign {
                stem: stem.clone(),
                index: index.clone(),
                rhs: rhs.clone(),
                nonblocking: *nonblocking,
            },
            IrStmt::IfElse { cond, then_body, else_body } => IrStmt::IfElse {
                cond: cond.clone(),
                then_body: clone_ir_stmts(then_body),
                else_body: clone_ir_stmts(else_body),
            },
            IrStmt::Case { expr, arms, default } => IrStmt::Case {
                expr: expr.clone(),
                arms: clone_ir_arms(arms),
                default: clone_ir_stmts(default),
            },
            IrStmt::For { init_var, init_val, cond, step_var, step_expr, body } => IrStmt::For {
                init_var: init_var.clone(),
                init_val: init_val.clone(),
                cond: cond.clone(),
                step_var: step_var.clone(),
                step_expr: step_expr.clone(),
                body: clone_ir_stmts(body),
            },
            IrStmt::Delay(d) => IrStmt::Delay(*d),
            IrStmt::SystemTask { name, args } => IrStmt::SystemTask { name: name.clone(), args: clone_ir_exprs(args) },
        }
    }
}

/// An element-by-element copy of `v`.
fn clone_ir_stmts(v: &Vec<IrStmt>) -> (r: Vec<IrStmt>)
    ensures
        r@.len() == v@.len(),
    decreases v@,
{
    let mut r: Vec<IrStmt> = Vec::new();
    let mut i: usize = 0;
    while i < v.len()
        invariant
            i <= v.len(),
            r@.len() == i,
        decreases v.len() - i,
    {
        assert(decreases_to!(v@ => v@[i as int]));
        r.push(v[i].clone());
        i = i + 1;
    }
    r
}

/// An element-by-element copy of `v`.
fn clone_ir_arms(v: &Vec<IrCaseArm>) -> (r: Vec<IrCaseArm>)
    ensures
        r@.len() == v@.len(),
    decreases v@,
{
    let mut r: Vec<IrCaseArm> = Vec::new();
    let mut i: usize = 0;
    while i < v.len()
        invariant
            i <= v.len(),
            r@.len() == i,
        decreases v.len() - i,
    {
        assert(decreases_to!(v@ => v@[i as int]));
        r.push(v[i].clone());
        i = i + 1;
    }
    r
}

// ---------------------------------------------------------------------------------------------
// Constant folding of IR expressions
// ---------------------------------------------------------------------------------------------

/// Index folding: one binary operator (`None` on division or remainder by zero; `>>` is logical
/// on 64 bits, `>>>` arithmetic).
pub open spec fn index_binop_spec(op: IrBinOp, l: i64, r: i64) -> Option<i64> {
    match op {
        IrBinOp::Add => Some(l.wrapping_add(r)),
        IrBinOp::Sub => Some(l.wrapping_sub(r)),
        IrBinOp::Mul => Some(l.wrapping_mul(r)),
        IrBinOp::Div => if r == 0 { None } else { Some(div_or_zero(l, r)) },
        IrBinOp::Mod => if r == 0 { None } else { Some(rem_or_zero(l, r)) },
        IrBinOp::And => Some(l & r),
        IrBinOp::Or => Some(l | r),
        IrBinOp::Xor => Some(l ^ r),
        IrBinOp::Shl => Some(l.wrapping_shl(shift_amount(r))),
        IrBinOp::Shr => Some(((l as u64) >> shift_amount(r)) as i64),
        IrBinOp::Ashr => Some(fold_ashr(l, shift_amount(r))),
        IrBinOp::LogAnd => Some(bool_i64(l != 0 && r != 0)),
        IrBinOp::LogOr => Some(bool_i64(l != 0 || r != 0)),
        IrBinOp::Eq => Some(bool_i64(l == r)),
        IrBinOp::Ne => Some(bool_i64(l != r)),
        IrBinOp::Lt => Some(bool_i64(l < r)),
        IrBinOp::Le => Some(bool_i64(l <= r)),
        IrBinOp::Gt => Some(bool_i64(l > r)),
        IrBinOp::Ge => Some(bool_i64(l >= r)),
    }
}

/// Unary operator of a folded constant.
pub open spec fn ir_unop_spec(op: IrUnaryOp, v: i64) -> i64 {
    match op {
        IrUnaryOp::Not => !v,
        IrUnaryOp::LogNot => bool_i64(v == 0),
        IrUnaryOp::Neg => 0i64.wrapping_sub(v),
    }
}

fn ir_unop(op: IrUnaryOp, v: i64) -> (r: i64)
    ensures
        r == ir_unop_spec(op, v),
{
    match op {
        IrUnaryOp::Not => !v,
        IrUnaryOp::LogNot => if v == 0 { 1 } else { 0 },
        IrUnaryOp::Neg => 0i64.wrapping_sub(v),
    }
}

fn shift_amount_of(r: i64) -> (s: u32)
    ensures
        s == shift_amount(r),
{
    let t = r as u32;
    if t < 63 { t } else { 63 }
}

fn index_binop(op: IrBinOp, l: i64, r: i64) -> (v: Option<i64>)
    ensures
        v == index_binop_spec(op, l, r),
{
    match op {
        IrBinOp::Add => Some(l.wrapping_add(r)),
        IrBinOp::Sub => Some(l.wrapping_sub(r)),
        IrBinOp::Mul => Some(l.wrapping_mul(r)),
        IrBinOp::Div => if r == 0 { None } else { Some(div_or_zero_exec(l, r)) },
        IrBinOp::Mod => if r == 0 { None } else { Some(rem_or_zero_exec(l, r)) },
        IrBinOp::And => Some(l & r),
        IrBinOp::Or => Some(l | r),
        IrBinOp::Xor => Some(l ^ r),
        IrBinOp::Shl => Some(l.wrapping_shl(shift_amount_of(r))),
        IrBinOp::Shr => Some(((l as u64) >> shift_amount_of(r)) as i64),
        IrBinOp::Ashr => Some(arith_shr_i64(l, shift_amount_of(r), 64)),
        IrBinOp::LogAnd => Some(if l != 0 && r != 0 { 1 } else { 0 }),
        IrBinOp::LogOr => Some(if l != 0 || r != 0 { 1 } else { 0 }),
        IrBinOp::Eq => Some(if l == r { 1 } else { 0 }),
        IrBinOp::Ne => Some(if l != r { 1 } else { 0 }),
        IrBinOp::Lt => Some(if l < r { 1 } else { 0 }),
        IrBinOp::Le => Some(if l <= r { 1 } else { 0 }),
        IrBinOp::Gt => Some(if l > r { 1 } else { 0 }),
        IrBinOp::Ge => Some(if l >= r { 1 } else { 0 }),
    }
}

/// Value of an index expression made of constants only; `None` when it reads a signal (an
/// identifier, a select, a memory read, a concatenation) or divides by zero.
pub open spec fn const_index_spec(e: IrExpr) -> Option<i64>
    decreases e,
{
    match e {
        IrExpr::Const(c) => Some(c),
        IrExpr::Binary { op, left, right } => match (const_index_spec(*left), const_index_spec(*right)) {
            (Some(l), Some(r)) => index_binop_spec(op, l, r),
            _ => None,
        },
        IrExpr::Unary { op, operand } => match const_index_spec(*operand) {
            Some(v) => Some(ir_unop_spec(op, v)),
            None => None,
        },
        IrExpr::Ternary { cond, then_expr, else_expr } => match const_index_spec(*cond) {
            Some(c) => if c != 0 { const_index_spec(*then_expr) } else { const_index_spec(*else_expr) },
            None => None,
        },
        IrExpr::Signed(inner) => match const_index_spec(*inner) {
            Some(v) => Some(sign_extend_spec(v as int, 32) as i64),
            None => None,
        },
        IrExpr::Ident(_) => None,
        IrExpr::Concat(_) => None,
        IrExpr::PartSelect { .. } => None,
        IrExpr::MemRead { .. } => None,
    }
}

/// Folds a part-select index built from constants (such as `k + 1` after generate unrolling).
pub fn ir_try_eval_const_index_expr(e: &IrExpr) -> (r: Option<i64>)
    ensures
        r == const_index_spec(*e),
    decreases e,
{
    match e {
        IrExpr::Const(c) => Some(*c),
        IrExpr::Binary { op, left, right } => {
            let l = match ir_try_eval_const_index_expr(left) {
                Some(v) => v,
                None => {
                    return None;
                },
            };
            let r = match ir_try_eval_const_index_expr(right) {
                Some(v) => v,
                None => {
                    return None;
                },
            };
            index_binop(*op, l, r)
        },
        IrExpr::Unary { op, operand } => match ir_try_eval_const_index_expr(operand) {
            Some(v) => Some(ir_unop(*op, v)),
            None => None,
        },
        IrExpr::Ternary { cond, then_expr, else_expr } => {
            let c = match ir_try_eval_const_index_expr(cond) {
                Some(v) => v,
                None => {
                    return None;
                },
            };
            if c != 0 {
                ir_try_eval_const_index_expr(then_expr)
            } else {
                ir_try_eval_const_index_expr(else_expr)
            }
        },
        IrExpr::Signed(inner) => match ir_try_eval_const_index_expr(inner) {
            Some(v) => Some(sign_extend_i64(v, 32)),
            None => None,
        },
        IrExpr::Ident(_) => None,
        IrExpr::Concat(_) => None,
        IrExpr::PartSelect { .. } => None,
        IrExpr::MemRead { .. } => None,
    }
}

/// Parameter folding: one binary operator (wrapping arithmetic, 0 on division or remainder by
/// zero, `>>` and `>>>` arithmetic).
pub open spec fn param_ir_binop_spec(op: IrBinOp, l: i64, r: i64) -> i64 {
    match op {
        IrBinOp::Add => l.wrapping_add(r),
        IrBinOp::Sub => l.wrapping_sub(r),
        IrBinOp::Mul => l.wrapping_mul(r),
        IrBinOp::Div => div_or_zero(l, r),
        IrBinOp::Mod => rem_or_zero(l, r),
        IrBinOp::And => l & r,
        IrBinOp::Or => l | r,
        IrBinOp::Xor => l ^ r,
        IrBinOp::Shl => l.wrapping_shl(shift_amount(r)),
        IrBinOp::Shr => l.wrapping_shr(shift_amount(r)),
        IrBinOp::Ashr => fold_ashr(l, shift_amount(r)),
        IrBinOp::LogAnd => bool_i64(l != 0 && r != 0),
        IrBinOp::LogOr => bool_i64(l != 0 || r != 0),
        IrBinOp::Eq => bool_i64(l == r),
        IrBinOp::Ne => bool_i64(l != r),
        IrBinOp::Lt => bool_i64(l < r),
        IrBinOp::Le => bool_i64(l <= r),
        IrBinOp::Gt => bool_i64(l > r),
        IrBinOp::Ge => bool_i64(l >= r),
    }
}

fn param_ir_binop(op: IrBinOp, l: i64, r: i64) -> (v: i64)
    ensures
        v == param_ir_binop_spec(op, l, r),
{
    match op {
        IrBinOp::Add => l.wrapping_add(r),
        IrBinOp::Sub => l.wrapping_sub(r),
        IrBinOp::Mul => l.wrapping_mul(r),
        IrBinOp::Div => div_or_zero_exec(l, r),
        IrBinOp::Mod => rem_or_zero_exec(l, r),
        IrBinOp::And => l & r,
        IrBinOp::Or => l | r,
        IrBinOp::Xor => l ^ r,
        IrBinOp::Shl => l.wrapping_shl(shift_amount_of(r)),
        IrBinOp::Shr => l.wrapping_shr(shift_amount_of(r)),
        IrBinOp::Ashr => arith_shr_i64(l, shift_amount_of(r), 64),
        IrBinOp::LogAnd => if l != 0 && r != 0 { 1 } else { 0 },
        IrBinOp::LogOr => if l != 0 || r != 0 { 1 } else { 0 },
        IrBinOp::Eq => if l == r { 1 } else { 0 },
        IrBinOp::Ne => if l != r { 1 } else { 0 },
        IrBinOp::Lt => if l < r { 1 } else { 0 },
        IrBinOp::Le => if l <= r { 1 } else { 0 },
        IrBinOp::Gt => if l > r { 1 } else { 0 },
        IrBinOp::Ge => if l >= r { 1 } else { 0 },
    }
}

/// Value of an instance parameter expression under the parent's parameters `known`; `None`
/// when it names an unknown identifier or uses a concatenation, a select or a memory read.
pub open spec fn ir_param_spec(e: IrExpr, known: Seq<(String, i64)>) -> Option<i64>
    decreases e,
{
    match e {
        IrExpr::Const(c) => Some(c),
        IrExpr::Ident(name) => env_lookup(known, name@),
        IrExpr::Binary { op, left, right } => match (ir_param_spec(*left, known), ir_param_spec(*right, known)) {
            (Some(l), Some(r)) => Some(param_ir_binop_spec(op, l, r)),
            _ => None,
        },
        IrExpr::Unary { op, operand } => match ir_param_spec(*operand, known) {
            Some(v) => Some(ir_unop_spec(op, v)),
            None => None,
        },
        IrExpr::Ternary { cond, then_expr, else_expr } => match ir_param_spec(*cond, known) {
            Some(c) => if c != 0 { ir_param_spec(*then_expr, known) } else { ir_param_spec(*else_expr, known) },
            None => None,
        },
        IrExpr::Signed(inner) => match ir_param_spec(*inner, known) {
            Some(v) => Some(sign_extend_spec(v as int, 32) as i64),
            None => None,
        },
        IrExpr::Concat(_) => None,
        IrExpr::PartSelect { .. } => None,
        IrExpr::MemRead { .. } => None,
    }
}

/// Evaluates an instance parameter expression under the parent's resolved parameters.
pub fn eval_ir_param_expr(e: &IrExpr, known: &ParamEnv) -> (r: Option<i64>)
    ensures
        r == ir_param_spec(*e, known@),
    decreases e,
{
    match e {
        IrExpr::Const(c) => Some(*c),
        IrExpr::Ident(name) => env_get(known, name),
        IrExpr::Binary { op, left, right } => {
            let l = match eval_ir_param_expr(left, known) {
                Some(v) => v,
                None => {
                    return None;
                },
            };
            let r = match eval_ir_param_expr(right, known) {
                Some(v) => v,
                None => {
                    return None;
                },
            };
            Some(param_ir_binop(*op, l, r))
        },
        IrExpr::Unary { op, operand } => match eval_ir_param_expr(operand, known) {
            Some(v) => Some(ir_unop(*op, v)),
            None => None,
        },
        IrExpr::Ternary { cond, then_expr, else_expr } => {
            let c = match eval_ir_param_expr(cond, known) {
                Some(v) => v,
                None => {
                    return None;
                },
            };
            if c != 0 {
                eval_ir_param_expr(then_expr, known)
            } else {
                eval_ir_param_expr(else_expr, known)
            }
        },
        IrExpr::Signed(inner) => match eval_ir_param_expr(inner, known) {
            Some(v) => Some(sign_extend_i64(v, 32)),
            None => None,
        },
        IrExpr::Concat(_) => None,
        IrExpr::PartSelect { .. } => None,
        IrExpr::MemRead { .. } => None,
    }
}


/// Width of a packed vector as the merge helper reads it: clamped to `1..=63`.
pub open spec fn merge_width(vec_width: usize) -> int {
    if vec_width < 1 { 1 } else if vec_width > 63 { 63 } else { vec_width as int }
}

/// All-ones mask of the merge width (`i64::MAX` at width 63).
pub open spec fn merge_width_mask(vec_width: usize) -> i64 {
    if merge_width(vec_width) >= 63 { i64::MAX } else { ((1i64 << (merge_width(vec_width) as u64)) - 1) as i64 }
}

/// Bit position of the merge: `bit_k` clamped to `0..=w-1`.
pub open spec fn merge_bit(bit_k: i64, vec_width: usize) -> i64 {
    if bit_k < 0 { 0 } else if bit_k > merge_width(vec_width) - 1 { (merge_width(vec_width) - 1) as i64 } else { bit_k }
}

/// `r` is `(vec & clear_mask) | ((scalar & 1) << k)`: bit `k` of the vector replaced by the low
/// bit of `scalar`, within the vector's width.
pub open spec fn merge_shape(r: IrExpr, vec_name: Seq<char>, bit_k: i64, scalar: IrExpr, vec_width: usize) -> bool {
    let k = merge_bit(bit_k, vec_width);
    let mask = merge_width_mask(vec_width);
    let clear = mask ^ ((1i64 << (k as u64)) & mask);
    match r {
        IrExpr::Binary { op: IrBinOp::Or, left: cleared, right: shifted } => match (*cleared, *shifted) {
            (
                IrExpr::Binary { op: IrBinOp::And, left: old, right: cm },
                IrExpr::Binary { op: IrBinOp::Shl, left: bit0, right: kk },
            ) => {
                &&& *old is Ident
                &&& (*old)->Ident_0@ == vec_name
                &&& *cm == IrExpr::Const(clear)
                &&& *kk == IrExpr::Const(k)
                &&& *bit0 == IrExpr::Binary {
                    op: IrBinOp::And,
                    left: Box::new(scalar),
                    right: Box::new(IrExpr::Const(1)),
                }
            },
            _ => false,
        },
        _ => false,
    }
}

/// `vec = (vec & ~(1 << k)) | ((scalar & 1) << k)`: one bit of a packed vector written by
/// read-modify-write (used when a 1-bit child output drives one bit of a parent vector).
pub fn ir_expr_merge_scalar_into_packed_vec(vec_name: &str, bit_k: i64, scalar_rhs: IrExpr, vec_width: usize) -> (r: IrExpr)
    ensures
        merge_shape(r, vec_name@, bit_k, scalar_rhs, vec_width),
{
    let w: i64 = if vec_width < 1 { 1 } else if vec_width > 63 { 63 } else { vec_width as i64 };
    proof {
        assert(forall|x: u64| 1 <= x <= 62 ==> (1i64 << x) >= 2) by (bit_vector);
    }
    let width_mask: i64 = if w >= 63 { i64::MAX } else { (1i64 << (w as u64)) - 1 };
    let k: i64 = if bit_k < 0 { 0 } else if bit_k > w - 1 { w - 1 } else { bit_k };
    let one_at_k = (1i64 << (k as u64)) & width_mask;
    let clear_mask = width_mask ^ one_at_k;
    let old = IrExpr::Ident(vec_name.to_owned());
    let cleared = IrExpr::Binary { op: IrBinOp::And, left: Box::new(old), right: Box::new(IrExpr::Const(clear_mask)) };
    let bit0 = IrExpr::Binary { op: IrBinOp::And, left: Box::new(scalar_rhs), right: Box::new(IrExpr::Const(1)) };
    let shifted = IrExpr::Binary { op: IrBinOp::Shl, left: Box::new(bit0), right: Box::new(IrExpr::Const(k)) };
    IrExpr::Binary { op: IrBinOp::Or, left: Box::new(cleared), right: Box::new(shifted) }
}

// ---------------------------------------------------------------------------------------------
// Lowering of expressions
// ---------------------------------------------------------------------------------------------

/// Whether `name` is one of the unpacked-array stems `mem`.
pub open spec fn mem_has(mem: Seq<String>, name: Seq<char>) -> bool {
    exists|i: int| 0 <= i < mem.len() && (#[trigger] mem[i])@ == name
}

/// Whether `name` is one of the unpacked-array stems `mem`.
pub fn mem_contains(mem: &Vec<String>, name: &String) -> (b: bool)
    ensures
        b == mem_has(mem@, name@),
{
    let mut i: usize = 0;
    while i < mem.len()
        invariant
            i <= mem.len(),
            forall|j: int| 0 <= j < i ==> (#[trigger] mem@[j])@ != name@,
        decreases mem.len() - i,
    {
        if mem[i] == *name {
            return true;
        }
        i = i + 1;
    }
    false
}

/// Width bound to `name` in `ws` (the last binding wins).
pub open spec fn width_lookup(ws: Seq<(String, usize)>, name: Seq<char>) -> Option<usize>
    decreases ws.len(),
{
    if ws.len() == 0 {
        None
    } else if ws.last().0@ == name {
        Some(ws.last().1)
    } else {
        width_lookup(ws.drop_last(), name)
    }
}

/// Width bound to `name` in `ws` (the last binding wins).
pub fn width_get(ws: &Vec<(String, usize)>, name: &String) -> (r: Option<usize>)
    ensures
        r == width_lookup(ws@, name@),
{
    let mut i = ws.len();
    assert(ws@.take(i as int) == ws@);
    while i > 0
        invariant
            i <= ws.len(),
            width_lookup(ws@, name@) == width_lookup(ws@.take(i as int), name@),
        decreases i,
    {
        assert(ws@.take(i as int).drop_last() == ws@.take(i - 1));
        if ws[i - 1].0 == *name {
            return Some(ws[i - 1].1);
        }
        i = i - 1;
    }
    None
}

/// Width used for a packed select write: the declared width (32 when unknown), clamped to 1..=62.
pub open spec fn net_width_spec(ws: Seq<(String, usize)>, reg: Seq<char>) -> usize {
    let w = match width_lookup(ws, reg) {
        Some(w) => w,
        None => 32,
    };
    if w < 1 { 1 } else if w > 62 { 62 } else { w }
}

/// Width used for a packed select write: the declared width (32 when unknown), clamped to 1..=62.
pub fn net_width_or_default(net_widths: &Vec<(String, usize)>, reg: &String) -> (w: usize)
    ensures
        w == net_width_spec(net_widths@, reg@),
        1 <= w <= 62,
{
    let w = match width_get(net_widths, reg) {
        Some(w) => w,
        None => 32,
    };
    if w < 1 { 1 } else if w > 62 { 62 } else { w }
}

/// The IR operator of a syntax operator.
pub open spec fn lower_binop_spec(op: BinaryOp) -> IrBinOp {
    match op {
        BinaryOp::Add => IrBinOp::Add,
        BinaryOp::Sub => IrBinOp::Sub,
        BinaryOp::Mul => IrBinOp::Mul,
        BinaryOp::Div => IrBinOp::Div,
        BinaryOp::Mod => IrBinOp::Mod,
        BinaryOp::And => IrBinOp::And,
        BinaryOp::Or => IrBinOp::Or,
        BinaryOp::Xor => IrBinOp::Xor,
        BinaryOp::Shl => IrBinOp::Shl,
        BinaryOp::Shr => IrBinOp::Shr,
        BinaryOp::Ashr => IrBinOp::Ashr,
        BinaryOp::LogAnd => IrBinOp::LogAnd,
        BinaryOp::LogOr => IrBinOp::LogOr,
        BinaryOp::Eq => IrBinOp::Eq,
        BinaryOp::Ne => IrBinOp::Ne,
        BinaryOp::Lt => IrBinOp::Lt,
        BinaryOp::Le => IrBinOp::Le,
        BinaryOp::Gt => IrBinOp::Gt,
        BinaryOp::Ge => IrBinOp::Ge,
    }
}

/// Lowering keeps what an operator computes: for every operator but the shifts, the IR
/// operator it lowers to gives, on any operands, the same value as the source operator does
/// in constant evaluation; so `^` is still exclusive or, `+` still adds, `<` still compares.
pub proof fn law_lowering_keeps_operators(l: i64, r: i64)
    ensures
        forall|op: BinaryOp|
            !(op == BinaryOp::Shl || op == BinaryOp::Shr || op == BinaryOp::Ashr) ==> #[trigger] binop_spec(
                lower_binop_spec(op),
                l,
                r,
            ) == param_binop_spec(op, l, r),
        binop_spec(lower_binop_spec(BinaryOp::Xor), l, r) == l ^ r,
        binop_spec(lower_binop_spec(BinaryOp::And), l, r) == l & r,
        binop_spec(lower_binop_spec(BinaryOp::Or), l, r) == l | r,
        i64::MIN <= l + r <= i64::MAX ==> binop_spec(lower_binop_spec(BinaryOp::Add), l, r) == l + r,
        i64::MIN <= l - r <= i64::MAX ==> binop_spec(lower_binop_spec(BinaryOp::Sub), l, r) == l - r,
        binop_spec(lower_binop_spec(BinaryOp::Lt), l, r) == 1 <==> l < r,
        binop_spec(lower_binop_spec(BinaryOp::Le), l, r) == 1 <==> l <= r,
        binop_spec(lower_binop_spec(BinaryOp::Gt), l, r) == 1 <==> l > r,
        binop_spec(lower_binop_spec(BinaryOp::Ge), l, r) == 1 <==> l >= r,
        binop_spec(lower_binop_spec(BinaryOp::Eq), l, r) == 1 <==> l == r,
        binop_spec(lower_binop_spec(BinaryOp::Ne), l, r) == 1 <==> l != r,
        binop_spec(lower_binop_spec(BinaryOp::LogAnd), l, r) == 1 <==> l != 0 && r != 0,
        binop_spec(lower_binop_spec(BinaryOp::LogOr), l, r) == 1 <==> l != 0 || r != 0,
{
    crate::codegen::law_binop_comparisons(l, r);
    crate::codegen::law_binop_arithmetic(l, r);
}

/// Each source operator lowers to a distinct IR operator (no two are merged).
pub proof fn law_lowering_distinct(a: BinaryOp, b: BinaryOp)
    ensures
        lower_binop_spec(a) == lower_binop_spec(b) ==> a == b,
{
}

/// The IR operator of a syntax operator.
pub fn lower_binop(op: BinaryOp) -> (r: IrBinOp)
    ensures
        r == lower_binop_spec(op),
{
    match op {
        BinaryOp::Add => IrBinOp::Add,
        BinaryOp::Sub => IrBinOp::Sub,
        BinaryOp::Mul => IrBinOp::Mul,
        BinaryOp::Div => IrBinOp::Div,
        BinaryOp::Mod => IrBinOp::Mod,
        BinaryOp::And => IrBinOp::And,
        BinaryOp::Or => IrBinOp::Or,
        BinaryOp::Xor => IrBinOp::Xor,
        BinaryOp::Shl => IrBinOp::Shl,
        BinaryOp::Shr => IrBinOp::Shr,
        BinaryOp::Ashr => IrBinOp::Ashr,
        BinaryOp::LogAnd => IrBinOp::LogAnd,
        BinaryOp::LogOr => IrBinOp::LogOr,
        BinaryOp::Eq => IrBinOp::Eq,
        BinaryOp::Ne => IrBinOp::Ne,
        BinaryOp::Lt => IrBinOp::Lt,
        BinaryOp::Le => IrBinOp::Le,
        BinaryOp::Gt => IrBinOp::Gt,
        BinaryOp::Ge => IrBinOp::Ge,
    }
}

/// The IR operator of a syntax prefix operator other than `+`.
pub open spec fn lower_unop_spec(op: UnaryOp) -> IrUnaryOp {
    match op {
        UnaryOp::Not => IrUnaryOp::Not,
        UnaryOp::LogNot => IrUnaryOp::LogNot,
        _ => IrUnaryOp::Neg,
    }
}

/// The IR operator of a syntax prefix operator; `+` has none (it is dropped while lowering).
pub fn lower_unaryop(op: UnaryOp) -> (r: IrUnaryOp)
    requires
        op != UnaryOp::Pos,
    ensures
        r == lower_unop_spec(op),
{
    match op {
        UnaryOp::Not => IrUnaryOp::Not,
        UnaryOp::LogNot => IrUnaryOp::LogNot,
        _ => IrUnaryOp::Neg,
    }
}

/// The constant an expression lowers to, if it lowers to one: a bound parameter, a number, a
/// `$clog2` (of its constant argument, 0 when it has none), through any `+` prefixes.
pub open spec fn lowered_const(e: Expr, env: Seq<(String, i64)>) -> Option<i64>
    decreases e,
{
    match e {
        Expr::Ident(name) => env_lookup(env, name@),
        Expr::Number(lit) => Some(verilog_number_spec(lit@)),
        Expr::Clog2(arg) => Some(
            clog2_spec(
                match const_eval_spec(*arg, env) {
                    Some(v) => v as int,
                    None => 0,
                },
            ) as i64,
        ),
        Expr::Unary { op, operand } => if op == UnaryOp::Pos { lowered_const(*operand, env) } else { None },
        _ => None,
    }
}

/// `r` is the lowering of `e`: parameters (`env`) become constants, numbers their values,
/// `$clog2` folds, `+x` is `x`, `stem[i]` on an unpacked array (`mem`) becomes a memory read,
/// any other single-index select a one-bit part-select, and operators map one to one.
pub open spec fn lower_rel(e: Expr, r: IrExpr, mem: Seq<String>, env: Seq<(String, i64)>) -> bool
    decreases e,
{
    match e {
        Expr::Ident(name) => match env_lookup(env, name@) {
            Some(v) => r == IrExpr::Const(v),
            None => r == IrExpr::Ident(name),
        },
        Expr::Number(lit) => r == IrExpr::Const(verilog_number_spec(lit@)),
        Expr::Index { base, msb, lsb } => match lsb {
            None => if (*base is Ident && mem_has(mem, (*base)->Ident_0@)) {
                match r {
                    IrExpr::MemRead { stem, index } => stem == (*base)->Ident_0 && lower_rel(*msb, *index, mem, env),
                    _ => false,
                }
            } else {
                match r {
                    IrExpr::PartSelect { value, msb: m1, lsb: m2 } => lower_rel(*base, *value, mem, env) && lower_rel(
                        *msb,
                        *m1,
                        mem,
                        env,
                    ) && lower_rel(*msb, *m2, mem, env),
                    _ => false,
                }
            },
            Some(l) => match r {
                IrExpr::PartSelect { value, msb: m1, lsb: m2 } => lower_rel(*base, *value, mem, env) && lower_rel(
                    *msb,
                    *m1,
                    mem,
                    env,
                ) && lower_rel(*l, *m2, mem, env),
                _ => false,
            },
        },
        Expr::Binary { op, left, right } => match r {
            IrExpr::Binary { op: o2, left: l2, right: r2 } => o2 == lower_binop_spec(op) && lower_rel(
                *left,
                *l2,
                mem,
                env,
            ) && lower_rel(*right, *r2, mem, env),
            _ => false,
        },
        Expr::Unary { op, operand } => if op == UnaryOp::Pos {
            lower_rel(*operand, r, mem, env)
        } else {
            match r {
                IrExpr::Unary { op: o2, operand: x } => o2 == lower_unop_spec(op) && lower_rel(*operand, *x, mem, env),
                _ => false,
            }
        },
        Expr::Ternary { cond, then_expr, else_expr } => match r {
            IrExpr::Ternary { cond: c2, then_expr: t2, else_expr: e2 } => lower_rel(*cond, *c2, mem, env) && lower_rel(
                *then_expr,
                *t2,
                mem,
                env,
            ) && lower_rel(*else_expr, *e2, mem, env),
            _ => false,
        },
        Expr::Concat(es) => match r {
            IrExpr::Concat(rs) => lower_seq_rel(es@, rs@, mem, env),
            _ => false,
        },
        Expr::Clog2(arg) => r == IrExpr::Const(
            clog2_spec(
                match const_eval_spec(*arg, env) {
                    Some(v) => v as int,
                    None => 0,
                },
            ) as i64,
        ),
        Expr::Signed(arg) => match r {
            IrExpr::Signed(x) => lower_rel(*arg, *x, mem, env),
            _ => false,
        },
    }
}

/// [`lower_rel`] element by element.
pub open spec fn lower_seq_rel(es: Seq<Expr>, rs: Seq<IrExpr>, mem: Seq<String>, env: Seq<(String, i64)>) -> bool
    decreases es,
{
    if es.len() == 0 {
        rs.len() == 0
    } else {
        rs.len() == es.len() && lower_seq_rel(es.subrange(0, es.len() - 1), rs.subrange(0, rs.len() - 1), mem, env)
            && lower_rel(es[es.len() - 1], rs[rs.len() - 1], mem, env)
    }
}

/// An expression lowers to a constant exactly when [`lowered_const`] says so, and to that one.
pub proof fn lemma_lowered_const(e: Expr, r: IrExpr, mem: Seq<String>, env: Seq<(String, i64)>)
    requires
        lower_rel(e, r, mem, env),
    ensures
        (r is Const) <==> lowered_const(e, env) is Some,
        r is Const ==> lowered_const(e, env) == Some(r->Const_0),
    decreases e,
{
    match e {
        Expr::Unary { op, operand } => {
            if op == UnaryOp::Pos {
                lemma_lowered_const(*operand, r, mem, env);
            }
        },
        _ => {},
    }
}

/// Lowers an expression (see [`lower_rel`]).
pub fn lower_expr(e: &Expr, mem_stems: &Vec<String>, locals: &ParamEnv) -> (r: IrExpr)
    ensures
        lower_rel(*e, r, mem_stems@, locals@),
    decreases e,
{
    match e {
        Expr::Ident(name) => match env_get(locals, name) {
            Some(v) => IrExpr::Const(v),
            None => IrExpr::Ident(name.clone()),
        },
        Expr::Number(lit) => IrExpr::Const(parse_verilog_number(lit.as_str())),
        Expr::Index { base, msb, lsb } => match lsb {
            None => {
                let is_mem = match &**base {
                    Expr::Ident(stem) => mem_contains(mem_stems, stem),
                    _ => false,
                };
                if is_mem {
                    let stem = match &**base {
                        Expr::Ident(stem) => stem.clone(),
                        _ => String::new(),
                    };
                    IrExpr::MemRead { stem, index: Box::new(lower_expr(msb, mem_stems, locals)) }
                } else {
                    let base_ir = lower_expr(base, mem_stems, locals);
                    let m1 = lower_expr(msb, mem_stems, locals);
                    let m2 = lower_expr(msb, mem_stems, locals);
                    IrExpr::PartSelect { value: Box::new(base_ir), msb: Box::new(m1), lsb: Box::new(m2) }
                }
            },
            Some(l) => IrExpr::PartSelect {
                value: Box::new(lower_expr(base, mem_stems, locals)),
                msb: Box::new(lower_expr(msb, mem_stems, locals)),
                lsb: Box::new(lower_expr(l, mem_stems, locals)),
            },
        },
        Expr::Binary { op, left, right } => IrExpr::Binary {
            op: lower_binop(*op),
            left: Box::new(lower_expr(left, mem_stems, locals)),
            right: Box::new(lower_expr(right, mem_stems, locals)),
        },
        Expr::Unary { op, operand } => {
            if *op == UnaryOp::Pos {
                lower_expr(operand, mem_stems, locals)
            } else {
                IrExpr::Unary { op: lower_unaryop(*op), operand: Box::new(lower_expr(operand, mem_stems, locals)) }
            }
        },
        Expr::Ternary { cond, then_expr, else_expr } => IrExpr::Ternary {
            cond: Box::new(lower_expr(cond, mem_stems, locals)),
            then_expr: Box::new(lower_expr(then_expr, mem_stems, locals)),
            else_expr: Box::new(lower_expr(else_expr, mem_stems, locals)),
        },
        Expr::Concat(es) => IrExpr::Concat(lower_exprs(es, mem_stems, locals)),
        Expr::Clog2(arg) => {
            let v: i64 = match const_eval_param_expr(arg, locals) {
                Some(v) => v,
                None => 0,
            };
            IrExpr::Const(verilog_clog2(v))
        },
        Expr::Signed(arg) => IrExpr::Signed(Box::new(lower_expr(arg, mem_stems, locals))),
    }
}

/// [`lower_expr`] on each expression of `es`.
pub fn lower_exprs(es: &Vec<Expr>, mem_stems: &Vec<String>, locals: &ParamEnv) -> (r: Vec<IrExpr>)
    ensures
        lower_seq_rel(es@, r@, mem_stems@, locals@),
    decreases es@,
{
    let mut out: Vec<IrExpr> = Vec::new();
    let mut i: usize = 0;
    while i < es.len()
        invariant
            i <= es.len(),
            out@.len() == i,
            lower_seq_rel(es@.take(i as int), out@, mem_stems@, locals@),
        decreases es.len() - i,
    {
        assert(decreases_to!(es@ => es@[i as int]));
        let x = lower_expr(&es[i], mem_stems, locals);
        let ghost prev = out@;
        out.push(x);
        assert(es@.take(i + 1).subrange(0, i as int) == es@.take(i as int));
        assert(out@.subrange(0, i as int) == prev);
        i = i + 1;
    }
    assert(es@.take(es.len() as int) == es@);
    out
}

// ---------------------------------------------------------------------------------------------
// Lowering of assignments and statements
// ---------------------------------------------------------------------------------------------

/// Left operand of a binary node.
pub open spec fn bl(e: IrExpr) -> IrExpr {
    *e->left
}

/// Right operand of a binary node.
pub open spec fn br(e: IrExpr) -> IrExpr {
    *e->right
}

/// Operand of a unary node.
pub open spec fn uo(e: IrExpr) -> IrExpr {
    *e->operand
}

/// `2^w - 1` as an IR constant.
pub open spec fn ones(w: int) -> i64 {
    ((1i64 << (w as u64)) - 1) as i64
}

fn ones_exec(w: i64) -> (r: i64)
    requires
        1 <= w <= 62,
    ensures
        r == ones(w as int),
        r >= 1,
{
    proof {
        assert(forall|x: u64| 1 <= x <= 62 ==> (1i64 << x) >= 2) by (bit_vector);
    }
    (1i64 << (w as u64)) - 1
}

/// Binary node with operator `op`.
pub open spec fn bin(op: IrBinOp, l: IrExpr, r: IrExpr) -> IrExpr {
    IrExpr::Binary { op, left: Box::new(l), right: Box::new(r) }
}

/// Read-modify-write of bit `idx` of `reg` (width `w`, clamped to 1..=62):
/// `(reg & (~((1 << idx1) & mask) & mask)) | ((val & 1) << idx2)`, the index appearing twice.
pub open spec fn bit_rmw_expr(reg: String, idx1: IrExpr, idx2: IrExpr, val: IrExpr, w: usize) -> IrExpr {
    let wi = if w < 1 { 1 } else if w > 62 { 62 } else { w as int };
    let mask = IrExpr::Const(ones(wi));
    let at_mask = bin(IrBinOp::And, bin(IrBinOp::Shl, IrExpr::Const(1), idx1), mask);
    let not_m = IrExpr::Unary { op: IrUnaryOp::Not, operand: Box::new(at_mask) };
    let cleared = bin(IrBinOp::And, IrExpr::Ident(reg), bin(IrBinOp::And, not_m, mask));
    let shifted = bin(IrBinOp::Shl, bin(IrBinOp::And, val, IrExpr::Const(1)), idx2);
    bin(IrBinOp::Or, cleared, shifted)
}

/// The first index copy, the second index copy and the value of a [`bit_rmw_expr`] tree.
pub open spec fn rmw_idx1(rr: IrExpr) -> IrExpr {
    br(bl(uo(bl(br(bl(rr))))))
}

/// See [`rmw_idx1`].
pub open spec fn rmw_idx2(rr: IrExpr) -> IrExpr {
    br(br(rr))
}

/// The written value of a [`bit_rmw_expr`] or [`part_rmw_expr`] tree.
pub open spec fn rmw_val(rr: IrExpr) -> IrExpr {
    bl(bl(br(rr)))
}

/// Packed `reg[idx] = val` as a read-modify-write of the whole vector.
pub fn lower_packed_bit_assign(lhs: String, idx1: IrExpr, idx2: IrExpr, val_ir: IrExpr, width: usize) -> (r: IrStmt)
    ensures
        r == (IrStmt::BlockingAssign { lhs, rhs: bit_rmw_expr(lhs, idx1, idx2, val_ir, width) }),
{
    let w_i: i64 = if width < 1 { 1 } else if width > 62 { 62 } else { width as i64 };
    let m = ones_exec(w_i);
    let old = IrExpr::Ident(lhs.clone());
    let shl_at = IrExpr::Binary { op: IrBinOp::Shl, left: Box::new(IrExpr::Const(1)), right: Box::new(idx1) };
    let at_mask = IrExpr::Binary { op: IrBinOp::And, left: Box::new(shl_at), right: Box::new(IrExpr::Const(m)) };
    let not_m = IrExpr::Unary { op: IrUnaryOp::Not, operand: Box::new(at_mask) };
    let not_masked = IrExpr::Binary { op: IrBinOp::And, left: Box::new(not_m), right: Box::new(IrExpr::Const(m)) };
    let cleared = IrExpr::Binary { op: IrBinOp::And, left: Box::new(old), right: Box::new(not_masked) };
    let v1 = IrExpr::Binary { op: IrBinOp::And, left: Box::new(val_ir), right: Box::new(IrExpr::Const(1)) };
    let shifted = IrExpr::Binary { op: IrBinOp::Shl, left: Box::new(v1), right: Box::new(idx2) };
    let rhs = IrExpr::Binary { op: IrBinOp::Or, left: Box::new(cleared), right: Box::new(shifted) };
    IrStmt::BlockingAssign { lhs, rhs }
}

/// Number of bits of the constant part-select `[msb:lsb]`.
pub open spec fn part_nbits(msb: i64, lsb: i64) -> int {
    let lo = if msb <= lsb { msb } else { lsb };
    let hi = if msb <= lsb { lsb } else { msb };
    hi - lo + 1
}

/// Right-hand side of a constant part-select write `reg[msb:lsb] = val` (width `w`, clamped to
/// 1..=62): the field cleared and `val` masked and shifted in; `val` itself when the field is
/// wider than 62 bits.
pub open spec fn part_rmw_expr(reg: String, msb: i64, lsb: i64, val: IrExpr, w: usize) -> IrExpr {
    let lo = if msb <= lsb { msb } else { lsb };
    let nbits = part_nbits(msb, lsb);
    if nbits > 62 {
        val
    } else {
        let wi = if w < 1 { 1 } else if w > 62 { 62 } else { w as int };
        let field_mask = ones(nbits).wrapping_shl(lo as u32) & ones(wi);
        let not_field = IrExpr::Unary { op: IrUnaryOp::Not, operand: Box::new(IrExpr::Const(field_mask)) };
        let cleared = bin(IrBinOp::And, IrExpr::Ident(reg), bin(IrBinOp::And, not_field, IrExpr::Const(ones(wi))));
        let shifted = bin(IrBinOp::Shl, bin(IrBinOp::And, val, IrExpr::Const(ones(nbits))), IrExpr::Const(lo));
        bin(IrBinOp::Or, cleared, shifted)
    }
}

/// Constant `reg[msb:lsb] = val` (both bounds known while lowering).
pub fn lower_packed_part_assign_const(lhs: String, msb: i64, lsb: i64, val_ir: IrExpr, width: usize) -> (r: IrStmt)
    ensures
        r == (IrStmt::BlockingAssign { lhs, rhs: part_rmw_expr(lhs, msb, lsb, val_ir, width) }),
{
    let lo = if msb <= lsb { msb } else { lsb };
    let hi = if msb <= lsb { lsb } else { msb };
    let nbits_wide: i128 = hi as i128 - lo as i128 + 1;
    if nbits_wide > 62 {
        return IrStmt::BlockingAssign { lhs, rhs: val_ir };
    }
    let nbits: i64 = nbits_wide as i64;
    let w_i: i64 = if width < 1 { 1 } else if width > 62 { 62 } else { width as i64 };
    let wm = ones_exec(w_i);
    let sm = ones_exec(nbits);
    let field_mask = sm.wrapping_shl(lo as u32) & wm;
    let old = IrExpr::Ident(lhs.clone());
    let not_field = IrExpr::Unary { op: IrUnaryOp::Not, operand: Box::new(IrExpr::Const(field_mask)) };
    let not_masked = IrExpr::Binary { op: IrBinOp::And, left: Box::new(not_field), right: Box::new(IrExpr::Const(wm)) };
    let cleared = IrExpr::Binary { op: IrBinOp::And, left: Box::new(old), right: Box::new(not_masked) };
    let val_clamped = IrExpr::Binary { op: IrBinOp::And, left: Box::new(val_ir), right: Box::new(IrExpr::Const(sm)) };
    let shifted = IrExpr::Binary { op: IrBinOp::Shl, left: Box::new(val_clamped), right: Box::new(IrExpr::Const(lo)) };
    let rhs = IrExpr::Binary { op: IrBinOp::Or, left: Box::new(cleared), right: Box::new(shifted) };
    IrStmt::BlockingAssign { lhs, rhs }
}

/// A blocking or non-blocking assignment.
pub open spec fn assign_stmt(is_nb: bool, lhs: String, rhs: IrExpr) -> IrStmt {
    if is_nb { IrStmt::NonBlockingAssign { lhs, rhs } } else { IrStmt::BlockingAssign { lhs, rhs } }
}

/// Target of a blocking or non-blocking assignment.
pub open spec fn stmt_lhs(r: IrStmt) -> String {
    match r {
        IrStmt::BlockingAssign { lhs, .. } => lhs,
        IrStmt::NonBlockingAssign { lhs, .. } => lhs,
        _ => arbitrary(),
    }
}

/// Right-hand side of a blocking or non-blocking assignment.
pub open spec fn stmt_rhs(r: IrStmt) -> IrExpr {
    match r {
        IrStmt::BlockingAssign { rhs, .. } => rhs,
        IrStmt::NonBlockingAssign { rhs, .. } => rhs,
        _ => arbitrary(),
    }
}

/// `r` lowers the assignment `target = rhs` (non-blocking when `is_nb`): a whole-signal write;
/// an unpacked-array element (a named scalar `stem__k` for a constant index, else a memory
/// write); a packed bit (read-modify-write); a constant packed part (read-modify-write), or a
/// non-constant one, which writes the whole signal.
pub open spec fn assign_rel(
    target: AssignTarget,
    rhs: Expr,
    is_nb: bool,
    r: IrStmt,
    mem: Seq<String>,
    env: Seq<(String, i64)>,
    ws: Seq<(String, usize)>,
) -> bool {
    match target {
        AssignTarget::Whole(name) => r == assign_stmt(is_nb, name, stmt_rhs(r)) && lower_rel(rhs, stmt_rhs(r), mem, env),
        AssignTarget::BitSelect { reg, index } => if mem_has(mem, reg@) {
            match lowered_const(index, env) {
                Some(k) => {
                    &&& r == assign_stmt(is_nb, stmt_lhs(r), stmt_rhs(r))
                    &&& stmt_lhs(r)@ == joined_name(reg@, signed_decimal_spec(k as int))
                    &&& lower_rel(rhs, stmt_rhs(r), mem, env)
                },
                None => match r {
                    IrStmt::MemAssign { stem, index: i2, rhs: v, nonblocking } => stem == reg && nonblocking == is_nb
                        && lower_rel(index, i2, mem, env) && lower_rel(rhs, v, mem, env),
                    _ => false,
                },
            }
        } else {
            let rr = stmt_rhs(r);
            &&& r == assign_stmt(is_nb, reg, rr)
            &&& rr == bit_rmw_expr(reg, rmw_idx1(rr), rmw_idx2(rr), rmw_val(rr), net_width_spec(ws, reg@))
            &&& lower_rel(index, rmw_idx1(rr), mem, env)
            &&& lower_rel(index, rmw_idx2(rr), mem, env)
            &&& lower_rel(rhs, rmw_val(rr), mem, env)
        },
        AssignTarget::PartSelect { reg, msb, lsb } => {
            let rr = stmt_rhs(r);
            match (lowered_const(msb, env), lowered_const(lsb, env)) {
                (Some(a), Some(b)) => {
                    let v = if part_nbits(a, b) > 62 { rr } else { rmw_val(rr) };
                    &&& r == assign_stmt(is_nb, reg, rr)
                    &&& rr == part_rmw_expr(reg, a, b, v, net_width_spec(ws, reg@))
                    &&& lower_rel(rhs, v, mem, env)
                },
                _ => r == assign_stmt(is_nb, reg, rr) && lower_rel(rhs, rr, mem, env),
            }
        },
    }
}

/// Turns a blocking assignment into a non-blocking one when `is_nb`.
fn wrap_nb(stmt: IrStmt, is_nb: bool) -> (r: IrStmt)
    requires
        stmt is BlockingAssign,
    ensures
        r == assign_stmt(is_nb, stmt_lhs(stmt), stmt_rhs(stmt)),
{
    if is_nb {
        match stmt {
            IrStmt::BlockingAssign { lhs, rhs } => IrStmt::NonBlockingAssign { lhs, rhs },
            other => other,
        }
    } else {
        stmt
    }
}

/// Lowers the assignment `target = rhs` (see [`assign_rel`]).
pub fn lower_assign_from_target(
    target: &AssignTarget,
    rhs: &Expr,
    is_nb: bool,
    mem_stems: &Vec<String>,
    locals: &ParamEnv,
    net_widths: &Vec<(String, usize)>,
) -> (r: Option<IrStmt>)
    ensures
        r is Some,
        assign_rel(*target, *rhs, is_nb, r->0, mem_stems@, locals@, net_widths@),
{
    match target {
        AssignTarget::Whole(name) => {
            let rhs_ir = lower_expr(rhs, mem_stems, locals);
            Some(wrap_nb(IrStmt::BlockingAssign { lhs: name.clone(), rhs: rhs_ir }, is_nb))
        },
        AssignTarget::BitSelect { reg, index } => {
            if mem_contains(mem_stems, reg) {
                let idx_ir = lower_expr(index, mem_stems, locals);
                let rhs_ir = lower_expr(rhs, mem_stems, locals);
                proof {
                    lemma_lowered_const(*index, idx_ir, mem_stems@, locals@);
                }
                match idx_ir {
                    IrExpr::Const(k) => {
                        let lhs = join_name_index(reg, k);
                        Some(wrap_nb(IrStmt::BlockingAssign { lhs, rhs: rhs_ir }, is_nb))
                    },
                    _ => Some(IrStmt::MemAssign { stem: reg.clone(), index: idx_ir, rhs: rhs_ir, nonblocking: is_nb }),
                }
            } else {
                let w = net_width_or_default(net_widths, reg);
                let i1 = lower_expr(index, mem_stems, locals);
                let i2 = lower_expr(index, mem_stems, locals);
                let v = lower_expr(rhs, mem_stems, locals);
                Some(wrap_nb(lower_packed_bit_assign(reg.clone(), i1, i2, v, w), is_nb))
            }
        },
        AssignTarget::PartSelect { reg, msb, lsb } => {
            let msb_ir = lower_expr(msb, mem_stems, locals);
            let lsb_ir = lower_expr(lsb, mem_stems, locals);
            let val_ir = lower_expr(rhs, mem_stems, locals);
            let w = net_width_or_default(net_widths, reg);
            proof {
                lemma_lowered_const(*msb, msb_ir, mem_stems@, locals@);
                lemma_lowered_const(*lsb, lsb_ir, mem_stems@, locals@);
            }
            let stmt = match (msb_ir, lsb_ir) {
                (IrExpr::Const(a), IrExpr::Const(b)) => lower_packed_part_assign_const(reg.clone(), a, b, val_ir, w),
                _ => IrStmt::BlockingAssign { lhs: reg.clone(), rhs: val_ir },
            };
            Some(wrap_nb(stmt, is_nb))
        },
    }
}

/// Whether `target` writes an unpacked-array element at an index that is not a constant.
pub open spec fn dynamic_mem_write(target: AssignTarget, mem: Seq<String>, env: Seq<(String, i64)>) -> bool {
    match target {
        AssignTarget::BitSelect { reg, index } => mem_has(mem, reg@) && lowered_const(index, env) is None,
        _ => false,
    }
}

/// Continuous `assign`: the lowered assignment (see [`assign_rel`]); `None` for a write to an
/// unpacked-array element at a non-constant index.
pub fn lower_continuous_assign(
    target: &AssignTarget,
    rhs: &Expr,
    mem_stems: &Vec<String>,
    locals: &ParamEnv,
    net_widths: &Vec<(String, usize)>,
) -> (r: Option<IrAssign>)
    ensures
        r is None <==> dynamic_mem_write(*target, mem_stems@, locals@),
        r matches Some(a) ==> assign_rel(
            *target,
            *rhs,
            false,
            IrStmt::BlockingAssign { lhs: a.lhs, rhs: a.rhs },
            mem_stems@,
            locals@,
            net_widths@,
        ),
{
    let stmt = lower_assign_from_target(target, rhs, false, mem_stems, locals, net_widths);
    match stmt {
        Some(IrStmt::BlockingAssign { lhs, rhs }) => Some(IrAssign { lhs, rhs }),
        _ => None,
    }
}


/// `r` lowers the procedural statement `s`: assignments by [`assign_rel`], every sub-expression
/// by [`lower_rel`], bodies statement by statement.
pub open spec fn lower_stmt_rel(
    s: CstStmt,
    r: IrStmt,
    mem: Seq<String>,
    env: Seq<(String, i64)>,
    ws: Seq<(String, usize)>,
) -> bool
    decreases s,
{
    match s {
        CstStmt::BlockingAssign { target, rhs } => assign_rel(target, rhs, false, r, mem, env, ws),
        CstStmt::NonBlockingAssign { target, rhs } => assign_rel(target, rhs, true, r, mem, env, ws),
        CstStmt::IfElse { cond, then_body, else_body } => match r {
            IrStmt::IfElse { cond: c, then_body: t, else_body: e } => lower_rel(cond, c, mem, env) && lower_stmts_rel(
                then_body@,
                t@,
                mem,
                env,
                ws,
            ) && lower_stmts_rel(else_body@, e@, mem, env, ws),
            _ => false,
        },
        CstStmt::Case { expr, arms, default } => match r {
            IrStmt::Case { expr: x, arms: a, default: d } => lower_rel(expr, x, mem, env) && lower_arms_rel(
                arms@,
                a@,
                mem,
                env,
                ws,
            ) && lower_stmts_rel(default@, d@, mem, env, ws),
            _ => false,
        },
        CstStmt::For { init_var, init_val, cond, step_var, step_expr, body } => match r {
            IrStmt::For { init_var: iv, init_val: a, cond: c, step_var: sv, step_expr: se, body: b } => {
                &&& iv == init_var
                &&& sv == step_var
                &&& lower_rel(init_val, a, mem, env)
                &&& lower_rel(cond, c, mem, env)
                &&& lower_rel(step_expr, se, mem, env)
                &&& lower_stmts_rel(body@, b@, mem, env, ws)
            },
            _ => false,
        },
        CstStmt::Delay(d) => r == IrStmt::Delay(d),
        CstStmt::SystemTask { name, args } => match r {
            IrStmt::SystemTask { name: n, args: a } => n == name && lower_seq_rel(args@, a@, mem, env),
            _ => false,
        },
    }
}

/// [`lower_stmt_rel`] statement by statement (every statement lowers to exactly one).
pub open spec fn lower_stmts_rel(
    ss: Seq<CstStmt>,
    rs: Seq<IrStmt>,
    mem: Seq<String>,
    env: Seq<(String, i64)>,
    ws: Seq<(String, usize)>,
) -> bool
    decreases ss,
{
    if ss.len() == 0 {
        rs.len() == 0
    } else {
        rs.len() == ss.len() && lower_stmts_rel(ss.subrange(0, ss.len() - 1), rs.subrange(0, rs.len() - 1), mem, env, ws)
            && lower_stmt_rel(ss[ss.len() - 1], rs[rs.len() - 1], mem, env, ws)
    }
}

/// `case` arms lowered one by one (value by [`lower_rel`], body by [`lower_stmts_rel`]).
pub open spec fn lower_arms_rel(
    arms: Seq<CaseArm>,
    rs: Seq<IrCaseArm>,
    mem: Seq<String>,
    env: Seq<(String, i64)>,
    ws: Seq<(String, usize)>,
) -> bool
    decreases arms,
{
    if arms.len() == 0 {
        rs.len() == 0
    } else {
        &&& rs.len() == arms.len()
        &&& lower_arms_rel(arms.subrange(0, arms.len() - 1), rs.subrange(0, rs.len() - 1), mem, env, ws)
        &&& lower_rel(arms[arms.len() - 1].value, rs[rs.len() - 1].value, mem, env)
        &&& lower_stmts_rel(arms[arms.len() - 1].body@, rs[rs.len() - 1].body@, mem, env, ws)
    }
}

/// Lowers a procedural statement (see [`lower_stmt_rel`]); every statement has a lowering.
pub fn lower_stmt(s: &CstStmt, mem_stems: &Vec<String>, locals: &ParamEnv, net_widths: &Vec<(String, usize)>) -> (r: Option<IrStmt>)
    ensures
        r is Some,
        lower_stmt_rel(*s, r->0, mem_stems@, locals@, net_widths@),
    decreases s,
{
    match s {
        CstStmt::BlockingAssign { target, rhs } => lower_assign_from_target(target, rhs, false, mem_stems, locals, net_widths),
        CstStmt::NonBlockingAssign { target, rhs } => lower_assign_from_target(target, rhs, true, mem_stems, locals, net_widths),
        CstStmt::IfElse { cond, then_body, else_body } => Some(IrStmt::IfElse {
            cond: lower_expr(cond, mem_stems, locals),
            then_body: lower_stmts(then_body, mem_stems, locals, net_widths),
            else_body: lower_stmts(else_body, mem_stems, locals, net_widths),
        }),
        CstStmt::Case { expr, arms, default } => Some(IrStmt::Case {
            expr: lower_expr(expr, mem_stems, locals),
            arms: lower_arms(arms, mem_stems, locals, net_widths),
            default: lower_stmts(default, mem_stems, locals, net_widths),
        }),
        CstStmt::For { init_var, init_val, cond, step_var, step_expr, body } => Some(IrStmt::For {
            init_var: init_var.clone(),
            init_val: lower_expr(init_val, mem_stems, locals),
            cond: lower_expr(cond, mem_stems, locals),
            step_var: step_var.clone(),
            step_expr: lower_expr(step_expr, mem_stems, locals),
            body: lower_stmts(body, mem_stems, locals, net_widths),
        }),
        CstStmt::Delay(d) => Some(IrStmt::Delay(*d)),
        CstStmt::SystemTask { name, args } => Some(IrStmt::SystemTask {
            name: name.clone(),
            args: lower_exprs(args, mem_stems, locals),
        }),
    }
}

/// Lowers a statement list (see [`lower_stmts_rel`]).
pub fn lower_stmts(ss: &Vec<CstStmt>, mem_stems: &Vec<String>, locals: &ParamEnv, net_widths: &Vec<(String, usize)>) -> (r: Vec<IrStmt>)
    ensures
        lower_stmts_rel(ss@, r@, mem_stems@, locals@, net_widths@),
    decreases ss@,
{
    let mut out: Vec<IrStmt> = Vec::new();
    let mut i: usize = 0;
    while i < ss.len()
        invariant
            i <= ss.len(),
            out@.len() == i,
            lower_stmts_rel(ss@.take(i as int), out@, mem_stems@, locals@, net_widths@),
        decreases ss.len() - i,
    {
        assert(decreases_to!(ss@ => ss@[i as int]));
        let x = lower_stmt(&ss[i], mem_stems, locals, net_widths).unwrap();
        let ghost prev = out@;
        out.push(x);
        assert(ss@.take(i + 1).subrange(0, i as int) == ss@.take(i as int));
        assert(out@.subrange(0, i as int) == prev);
        i = i + 1;
    }
    assert(ss@.take(ss.len() as int) == ss@);
    out
}

/// Lowers one `case` arm.
fn lower_arm(a: &CaseArm, mem_stems: &Vec<String>, locals: &ParamEnv, net_widths: &Vec<(String, usize)>) -> (r: IrCaseArm)
    ensures
        lower_rel(a.value, r.value, mem_stems@, locals@),
        lower_stmts_rel(a.body@, r.body@, mem_stems@, locals@, net_widths@),
    decreases a,
{
    IrCaseArm { value: lower_expr(&a.value, mem_stems, locals), body: lower_stmts(&a.body, mem_stems, locals, net_widths) }
}

/// Lowers the arms of a `case` (see [`lower_arms_rel`]).
pub fn lower_arms(arms: &Vec<CaseArm>, mem_stems: &Vec<String>, locals: &ParamEnv, net_widths: &Vec<(String, usize)>) -> (r: Vec<IrCaseArm>)
    ensures
        lower_arms_rel(arms@, r@, mem_stems@, locals@, net_widths@),
    decreases arms@,
{
    let mut out: Vec<IrCaseArm> = Vec::new();
    let mut i: usize = 0;
    while i < arms.len()
        invariant
            i <= arms.len(),
            out@.len() == i,
            lower_arms_rel(arms@.take(i as int), out@, mem_stems@, locals@, net_widths@),
        decreases arms.len() - i,
    {
        assert(decreases_to!(arms@ => arms@[i as int]));
        let x = lower_arm(&arms[i], mem_stems, locals, net_widths);
        let ghost prev = out@;
        out.push(x);
        assert(arms@.take(i + 1).subrange(0, i as int) == arms@.take(i as int));
        assert(out@.subrange(0, i as int) == prev);
        i = i + 1;
    }
    assert(arms@.take(arms.len() as int) == arms@);
    out
}

/// The IR edge of a syntax edge.
pub open spec fn lower_edge_spec(e: EdgeKind) -> IrEdgeKind {
    match e {
        EdgeKind::Posedge => IrEdgeKind::Posedge,
        EdgeKind::Negedge => IrEdgeKind::Negedge,
        EdgeKind::Level => IrEdgeKind::Level,
    }
}

/// `r` lowers the sensitivity `s`: `*` stays `*`, each entry keeps its signal and edge.
pub open spec fn lower_sens_rel(s: Sensitivity, r: IrSensitivity) -> bool {
    match s {
        Sensitivity::Star => r is Star,
        Sensitivity::EdgeList(es) => match r {
            IrSensitivity::EdgeList(rs) => rs@.len() == es@.len() && forall|i: int|
                #![trigger rs@[i]]
                0 <= i < es@.len() ==> rs@[i].signal == es@[i].signal && rs@[i].edge == lower_edge_spec(es@[i].edge),
            _ => false,
        },
    }
}

/// Lowers an `always` block: its sensitivity and its statements.
pub fn lower_always(
    sens: &Sensitivity,
    stmts: &Vec<CstStmt>,
    mem_stems: &Vec<String>,
    locals: &ParamEnv,
    net_widths: &Vec<(String, usize)>,
) -> (r: IrAlways)
    ensures
        lower_sens_rel(*sens, r.sensitivity),
        lower_stmts_rel(stmts@, r.stmts@, mem_stems@, locals@, net_widths@),
{
    let sensitivity = match sens {
        Sensitivity::Star => IrSensitivity::Star,
        Sensitivity::EdgeList(edges) => {
            let mut out: Vec<IrSensEntry> = Vec::new();
            let mut i: usize = 0;
            while i < edges.len()
                invariant
                    i <= edges.len(),
                    out@.len() == i,
                    forall|j: int|
                        #![trigger out@[j]]
                        0 <= j < i ==> out@[j].signal == edges@[j].signal && out@[j].edge == lower_edge_spec(
                            edges@[j].edge,
                        ),
                decreases edges.len() - i,
            {
                let e = &edges[i];
                let edge = match e.edge {
                    EdgeKind::Posedge => IrEdgeKind::Posedge,
                    EdgeKind::Negedge => IrEdgeKind::Negedge,
                    EdgeKind::Level => IrEdgeKind::Level,
                };
                out.push(IrSensEntry { edge, signal: e.signal.clone() });
                i = i + 1;
            }
            IrSensitivity::EdgeList(out)
        },
    };
    IrAlways { sensitivity, stmts: lower_stmts(stmts, mem_stems, locals, net_widths) }
}

// ---------------------------------------------------------------------------------------------
// Module-level lowering
// ---------------------------------------------------------------------------------------------

/// Parameter environment of a module: the header parameters, then each `parameter` /
/// `localparam` item in order.
pub open spec fn locals_env(params: Seq<(String, Expr)>, items: Seq<CstModuleItem>) -> Seq<(String, i64)>
    decreases items.len(),
{
    if items.len() == 0 {
        resolve_from(seq![], params)
    } else {
        let e = locals_env(params, items.drop_last());
        match items.last() {
            CstModuleItem::LocalParam { assignments } => resolve_from(e, assignments@),
            _ => e,
        }
    }
}

/// Resolved parameter environment of a module (see [`locals_env`]).
pub fn module_locals_for_cst(cst: &CstModule) -> (r: ParamEnv)
    ensures
        r@ == locals_env(cst.module_parameters@, cst.items@),
{
    let mut env: ParamEnv = Vec::new();
    resolve_into(&mut env, &cst.module_parameters);
    let mut i: usize = 0;
    while i < cst.items.len()
        invariant
            i <= cst.items.len(),
            env@ == locals_env(cst.module_parameters@, cst.items@.take(i as int)),
        decreases cst.items.len() - i,
    {
        assert(cst.items@.take(i + 1).drop_last() == cst.items@.take(i as int));
        match &cst.items[i] {
            CstModuleItem::LocalParam { assignments } => {
                resolve_into(&mut env, assignments);
            },
            _ => {},
        }
        i = i + 1;
    }
    assert(cst.items@.take(cst.items.len() as int) == cst.items@);
    env
}

/// Value of a constant expression under `env`, or `d` when it does not evaluate.
pub open spec fn const_or(e: Expr, env: Seq<(String, i64)>, d: i64) -> i64 {
    match const_eval_spec(e, env) {
        Some(v) => v,
        None => d,
    }
}

fn const_or_exec(e: &Expr, env: &ParamEnv, d: i64) -> (r: i64)
    ensures
        r == const_or(*e, env@, d),
{
    match const_eval_param_expr(e, env) {
        Some(v) => v,
        None => d,
    }
}

/// Width of a declaration: `|msb - lsb| + 1` (bounds that do not evaluate read as 1), or the
/// declared scalar width without a packed range.
pub open spec fn decl_width(packed_dim: Option<(Expr, Expr)>, width: usize, env: Seq<(String, i64)>) -> usize {
    match packed_dim {
        Some((m, l)) => port_width_spec(const_or(m, env, 1) as int, const_or(l, env, 1) as int) as usize,
        None => width,
    }
}

fn decl_width_exec(packed_dim: &Option<(Expr, Expr)>, width: usize, env: &ParamEnv) -> (w: usize)
    ensures
        w == decl_width(*packed_dim, width, env@),
{
    match packed_dim {
        Some((msb, lsb)) => {
            let m = const_or_exec(msb, env, 1);
            let l = const_or_exec(lsb, env, 1);
            let d: i128 = if m >= l { m as i128 - l as i128 } else { l as i128 - m as i128 };
            if d >= usize::MAX as i128 { usize::MAX } else { (d + 1) as usize }
        },
        None => width,
    }
}

/// Unpacked-array stems declared by `items`, in order.
pub open spec fn stems_of(items: Seq<CstModuleItem>) -> Seq<String>
    decreases items.len(),
{
    if items.len() == 0 {
        seq![]
    } else {
        stems_of(items.drop_last()) + match items.last() {
            CstModuleItem::NetDecl { unpacked_stems, .. } => unpacked_stems@.map_values(|t: (String, Expr, Expr)| t.0),
            _ => seq![],
        }
    }
}

/// Unpacked-array stems declared by `items`.
pub fn collect_mem_stems(items: &Vec<CstModuleItem>) -> (r: Vec<String>)
    ensures
        r@ == stems_of(items@),
{
    let mut out: Vec<String> = Vec::new();
    let mut i: usize = 0;
    while i < items.len()
        invariant
            i <= items.len(),
            out@ == stems_of(items@.take(i as int)),
        decreases items.len() - i,
    {
        assert(items@.take(i + 1).drop_last() == items@.take(i as int));
        match &items[i] {
            CstModuleItem::NetDecl { unpacked_stems, .. } => {
                let ghost before = out@;
                let mut j: usize = 0;
                while j < unpacked_stems.len()
                    invariant
                        j <= unpacked_stems.len(),
                        out@ == before + unpacked_stems@.take(j as int).map_values(|t: (String, Expr, Expr)| t.0),
                    decreases unpacked_stems.len() - j,
                {
                    out.push(unpacked_stems[j].0.clone());
                    assert(unpacked_stems@.take(j + 1).map_values(|t: (String, Expr, Expr)| t.0)
                        == unpacked_stems@.take(j as int).map_values(|t: (String, Expr, Expr)| t.0).push(
                        unpacked_stems@[j as int].0,
                    ));
                    j = j + 1;
                }
                assert(unpacked_stems@.take(unpacked_stems.len() as int) == unpacked_stems@);
            },
            _ => {},
        }
        i = i + 1;
    }
    assert(items@.take(items.len() as int) == items@);
    out
}

/// The unpacked array declared by one stem entry: its bounds (unevaluable ones read as 0),
/// ordered low to high, and the element width.
pub open spec fn mem_array_of(t: (String, Expr, Expr), w: usize, env: Seq<(String, i64)>) -> IrMemArray {
    let hi = const_or(t.1, env, 0);
    let lo = const_or(t.2, env, 0);
    IrMemArray { stem: t.0, lo: if hi <= lo { hi } else { lo }, hi: if hi <= lo { lo } else { hi }, elem_width: w }
}

/// Unpacked arrays declared by `items`, in order.
pub open spec fn mem_arrays_of(items: Seq<CstModuleItem>, env: Seq<(String, i64)>) -> Seq<IrMemArray>
    decreases items.len(),
{
    if items.len() == 0 {
        seq![]
    } else {
        mem_arrays_of(items.drop_last(), env) + match items.last() {
            CstModuleItem::NetDecl { packed_dim, width, unpacked_stems, .. } => unpacked_stems@.map_values(
                |t: (String, Expr, Expr)| mem_array_of(t, decl_width(packed_dim, width, env), env),
            ),
            _ => seq![],
        }
    }
}

/// Unpacked arrays declared by `items`.
pub fn collect_mem_arrays(items: &Vec<CstModuleItem>, locals: &ParamEnv) -> (r: Vec<IrMemArray>)
    ensures
        r@ == mem_arrays_of(items@, locals@),
{
    let mut out: Vec<IrMemArray> = Vec::new();
    let mut i: usize = 0;
    while i < items.len()
        invariant
            i <= items.len(),
            out@ == mem_arrays_of(items@.take(i as int), locals@),
        decreases items.len() - i,
    {
        assert(items@.take(i + 1).drop_last() == items@.take(i as int));
        match &items[i] {
            CstModuleItem::NetDecl { packed_dim, width, unpacked_stems, .. } => {
                let w = decl_width_exec(packed_dim, *width, locals);
                let ghost before = out@;
                let ghost f = |t: (String, Expr, Expr)| mem_array_of(t, w, locals@);
                let mut j: usize = 0;
                while j < unpacked_stems.len()
                    invariant
                        j <= unpacked_stems.len(),
                        w == decl_width(*packed_dim, *width, locals@),
                        f == (|t: (String, Expr, Expr)| mem_array_of(t, w, locals@)),
                        out@ == before + unpacked_stems@.take(j as int).map_values(f),
                    decreases unpacked_stems.len() - j,
                {
                    let hi = const_or_exec(&unpacked_stems[j].1, locals, 0);
                    let lo = const_or_exec(&unpacked_stems[j].2, locals, 0);
                    out.push(IrMemArray {
                        stem: unpacked_stems[j].0.clone(),
                        lo: if hi <= lo { hi } else { lo },
                        hi: if hi <= lo { lo } else { hi },
                        elem_width: w,
                    });
                    assert(unpacked_stems@.take(j + 1).map_values(f) == unpacked_stems@.take(j as int).map_values(f).push(
                        f(unpacked_stems@[j as int]),
                    ));
                    j = j + 1;
                }
                assert(unpacked_stems@.take(unpacked_stems.len() as int) == unpacked_stems@);
            },
            _ => {},
        }
        i = i + 1;
    }
    assert(items@.take(items.len() as int) == items@);
    out
}

/// Whether `n` is one of the unpacked stems `stems`.
pub open spec fn is_stem_of(stems: Seq<(String, Expr, Expr)>, n: Seq<char>) -> bool {
    exists|j: int| 0 <= j < stems.len() && (#[trigger] stems[j]).0@ == n
}

/// Scalar nets of a declaration: each name that is not an unpacked stem, with width `w`.
pub open spec fn name_entries(names: Seq<String>, stems: Seq<(String, Expr, Expr)>, w: usize) -> Seq<(Seq<char>, usize)>
    decreases names.len(),
{
    if names.len() == 0 {
        seq![]
    } else {
        name_entries(names.drop_last(), stems, w) + if is_stem_of(stems, names.last()@) {
            seq![]
        } else {
            seq![(names.last()@, w)]
        }
    }
}

/// Element nets `stem__low` .. `stem__(low+count-1)` of an unpacked array, each of width `w`.
pub open spec fn range_entries(stem: Seq<char>, low: i64, count: int, w: usize) -> Seq<(Seq<char>, usize)> {
    Seq::new(count as nat, |k: int| (joined_name(stem, signed_decimal_spec(low + k)), w))
}

/// Element nets of the unpacked stems of a declaration, stem by stem.
pub open spec fn stem_entries(stems: Seq<(String, Expr, Expr)>, w: usize, env: Seq<(String, i64)>) -> Seq<(Seq<char>, usize)>
    decreases stems.len(),
{
    if stems.len() == 0 {
        seq![]
    } else {
        let a = mem_array_of(stems.last(), w, env);
        stem_entries(stems.drop_last(), w, env) + range_entries(a.stem@, a.lo, a.hi - a.lo + 1, w)
    }
}

/// Nets (name, width) declared by `items`, in order: per declaration its scalar names, then the
/// elements of its unpacked arrays.
pub open spec fn net_entries(items: Seq<CstModuleItem>, env: Seq<(String, i64)>) -> Seq<(Seq<char>, usize)>
    decreases items.len(),
{
    if items.len() == 0 {
        seq![]
    } else {
        net_entries(items.drop_last(), env) + match items.last() {
            CstModuleItem::NetDecl { packed_dim, width, names, unpacked_stems, .. } => {
                let w = decl_width(packed_dim, width, env);
                name_entries(names@, unpacked_stems@, w) + stem_entries(unpacked_stems@, w, env)
            },
            _ => seq![],
        }
    }
}

/// The view of a (name, width) list.
pub open spec fn width_view(ws: Seq<(String, usize)>) -> Seq<(Seq<char>, usize)> {
    ws.map_values(|p: (String, usize)| (p.0@, p.1))
}

fn stem_listed(stems: &Vec<(String, Expr, Expr)>, n: &String) -> (b: bool)
    ensures
        b == is_stem_of(stems@, n@),
{
    let mut j: usize = 0;
    while j < stems.len()
        invariant
            j <= stems.len(),
            forall|k: int| 0 <= k < j ==> (#[trigger] stems@[k]).0@ != n@,
        decreases stems.len() - j,
    {
        if stems[j].0 == *n {
            return true;
        }
        j = j + 1;
    }
    false
}

/// Nets declared by `items` with their widths (see [`net_entries`]); a later entry for a name
/// overrides an earlier one when looked up.
pub fn collect_net_widths(items: &Vec<CstModuleItem>, locals: &ParamEnv) -> (r: Vec<(String, usize)>)
    ensures
        width_view(r@) == net_entries(items@, locals@),
{
    let mut out: Vec<(String, usize)> = Vec::new();
    let mut i: usize = 0;
    while i < items.len()
        invariant
            i <= items.len(),
            width_view(out@) == net_entries(items@.take(i as int), locals@),
        decreases items.len() - i,
    {
        assert(items@.take(i + 1).drop_last() == items@.take(i as int));
        match &items[i] {
            CstModuleItem::NetDecl { packed_dim, width, names, unpacked_stems, .. } => {
                let w = decl_width_exec(packed_dim, *width, locals);
                let ghost before = width_view(out@);
                let mut j: usize = 0;
                while j < names.len()
                    invariant
                        j <= names.len(),
                        width_view(out@) == before + name_entries(names@.take(j as int), unpacked_stems@, w),
                    decreases names.len() - j,
                {
                    assert(names@.take(j + 1).drop_last() == names@.take(j as int));
                    assert(names@.take(j + 1).last() == names@[j as int]);
                    let ghost prev = width_view(out@);
                    if !stem_listed(unpacked_stems, &names[j]) {
                        out.push((names[j].clone(), w));
                        assert(width_view(out@) =~= prev.push((names@[j as int]@, w)));
                    } else {
                        assert(width_view(out@) =~= prev);
                    }
                    assert(width_view(out@) =~= before + name_entries(names@.take(j + 1), unpacked_stems@, w));
                    j = j + 1;
                }
                assert(names@.take(names.len() as int) == names@);
                let ghost mid = width_view(out@);
                let mut t: usize = 0;
                while t < unpacked_stems.len()
                    invariant
                        t <= unpacked_stems.len(),
                        w == decl_width(*packed_dim, *width, locals@),
                        width_view(out@) == mid + stem_entries(unpacked_stems@.take(t as int), w, locals@),
                    decreases unpacked_stems.len() - t,
                {
                    assert(unpacked_stems@.take(t + 1).drop_last() == unpacked_stems@.take(t as int));
                    let hi = const_or_exec(&unpacked_stems[t].1, locals, 0);
                    let lo = const_or_exec(&unpacked_stems[t].2, locals, 0);
                    let low = if hi <= lo { hi } else { lo };
                    let high = if hi <= lo { lo } else { hi };
                    let stem = &unpacked_stems[t].0;
                    let ghost base = width_view(out@);
                    let mut x: i128 = low as i128;
                    while x <= high as i128
                        invariant
                            low <= high,
                            low <= x <= high as i128 + 1,
                            width_view(out@) == base + range_entries(stem@, low, x - low, w),
                        decreases high as i128 + 1 - x,
                    {
                        let name = join_name_index(stem, x as i64);
                        let ghost prev = width_view(out@);
                        out.push((name, w));
                        assert(width_view(out@) =~= prev.push((name@, w)));
                        assert(range_entries(stem@, low, x + 1 - low, w) =~= range_entries(stem@, low, x - low, w).push(
                            (joined_name(stem@, signed_decimal_spec(x as int)), w),
                        ));
                        assert(width_view(out@) =~= base + range_entries(stem@, low, x + 1 - low, w));
                        x = x + 1;
                    }
                    t = t + 1;
                }
                assert(unpacked_stems@.take(unpacked_stems.len() as int) == unpacked_stems@);
            },
            _ => {},
        }
        i = i + 1;
    }
    assert(items@.take(items.len() as int) == items@);
    out
}

/// Index of the first port named `name`.
pub open spec fn first_port(ports: Seq<Port>, name: Seq<char>) -> Option<int> {
    if exists|i: int| 0 <= i < ports.len() && is_first_port(ports, name, i) {
        Some(choose|i: int| 0 <= i < ports.len() && is_first_port(ports, name, i))
    } else {
        None
    }
}

/// `i` is the first position of a port named `name`.
pub open spec fn is_first_port(ports: Seq<Port>, name: Seq<char>, i: int) -> bool {
    &&& ports[i].name@ == name
    &&& forall|j: int| 0 <= j < i ==> (#[trigger] ports[j]).name@ != name
}

/// `ports` with the first port named `name` given direction `dir`.
pub open spec fn set_port_dir(ports: Seq<Port>, name: Seq<char>, dir: String) -> Seq<Port> {
    match first_port(ports, name) {
        Some(i) => ports.update(i, Port { direction: Some(dir), name: ports[i].name, width: ports[i].width }),
        None => ports,
    }
}

/// `ports` with each of `names` given direction `dir`, in order.
pub open spec fn apply_port_dirs(ports: Seq<Port>, names: Seq<String>, dir: String) -> Seq<Port>
    decreases names.len(),
{
    if names.len() == 0 {
        ports
    } else {
        set_port_dir(apply_port_dirs(ports, names.drop_last(), dir), names.last()@, dir)
    }
}

/// Ports after applying the directions of the body's `input` / `output` / `inout` declarations,
/// item by item.
pub open spec fn merged_ports(items: Seq<CstModuleItem>, ports: Seq<Port>) -> Seq<Port>
    decreases items.len(),
{
    if items.len() == 0 {
        ports
    } else {
        let p = merged_ports(items.drop_last(), ports);
        match items.last() {
            CstModuleItem::NetDecl { decl_dir: Some(dir), names, .. } => apply_port_dirs(p, names@, dir),
            _ => p,
        }
    }
}

fn set_first_port_dir(ports: &mut Vec<Port>, name: &String, dir: &String)
    ensures
        final(ports)@ == set_port_dir(old(ports)@, name@, *dir),
{
    let mut i: usize = 0;
    while i < ports.len()
        invariant
            i <= ports.len(),
            *ports == *old(ports),
            forall|j: int| 0 <= j < i ==> (#[trigger] ports@[j]).name@ != name@,
        decreases ports.len() - i,
    {
        if ports[i].name == *name {
            proof {
                assert(is_first_port(ports@, name@, i as int));
                let c = choose|c: int| 0 <= c < ports@.len() && is_first_port(ports@, name@, c);
                assert(c == i) by {
                    if c < i {
                        assert(ports@[c].name@ != name@);
                    } else if c > i {
                        assert(ports@[i as int].name@ != name@);
                    }
                }
            }
            let p = Port { direction: Some(dir.clone()), name: ports[i].name.clone(), width: ports[i].width };
            ports.set(i, p);
            return;
        }
        i = i + 1;
    }
}

/// Non-ANSI headers (`module M(a, b);`) give ports without direction; the body's `input` /
/// `output` / `inout` declarations supply them (see [`merged_ports`]).
pub fn merge_port_directions_from_body(items: &Vec<CstModuleItem>, ports: &mut Vec<Port>)
    ensures
        final(ports)@ == merged_ports(items@, old(ports)@),
{
    let ghost start = ports@;
    let mut i: usize = 0;
    while i < items.len()
        invariant
            i <= items.len(),
            ports@ == merged_ports(items@.take(i as int), start),
        decreases items.len() - i,
    {
        assert(items@.take(i + 1).drop_last() == items@.take(i as int));
        match &items[i] {
            CstModuleItem::NetDecl { decl_dir: Some(dir), names, .. } => {
                let ghost before = ports@;
                let mut j: usize = 0;
                while j < names.len()
                    invariant
                        j <= names.len(),
                        ports@ == apply_port_dirs(before, names@.take(j as int), *dir),
                    decreases names.len() - j,
                {
                    assert(names@.take(j + 1).drop_last() == names@.take(j as int));
                    set_first_port_dir(ports, &names[j], dir);
                    j = j + 1;
                }
                assert(names@.take(names.len() as int) == names@);
            },
            _ => {},
        }
        i = i + 1;
    }
    assert(items@.take(items.len() as int) == items@);
}

/// `always` items of a module body, in order.
pub open spec fn always_items(items: Seq<CstModuleItem>) -> Seq<(Sensitivity, Vec<CstStmt>)>
    decreases items.len(),
{
    if items.len() == 0 {
        seq![]
    } else {
        always_items(items.drop_last()) + match items.last() {
            CstModuleItem::Always { sensitivity, body } => seq![(sensitivity, body)],
            _ => seq![],
        }
    }
}

/// Bodies of the `initial` items of a module body, in order.
pub open spec fn initial_items(items: Seq<CstModuleItem>) -> Seq<Vec<CstStmt>>
    decreases items.len(),
{
    if items.len() == 0 {
        seq![]
    } else {
        initial_items(items.drop_last()) + match items.last() {
            CstModuleItem::Initial { body } => seq![body],
            _ => seq![],
        }
    }
}

/// Continuous assignments of a module body that lower to an [`IrAssign`], in order.
pub open spec fn assign_items(items: Seq<CstModuleItem>, mem: Seq<String>, env: Seq<(String, i64)>) -> Seq<(AssignTarget, Expr)>
    decreases items.len(),
{
    if items.len() == 0 {
        seq![]
    } else {
        assign_items(items.drop_last(), mem, env) + match items.last() {
            CstModuleItem::Assign { target, expr } => if dynamic_mem_write(target, mem, env) {
                seq![]
            } else {
                seq![(target, expr)]
            },
            _ => seq![],
        }
    }
}

/// Number of generate-loop iterations: the bound's value (0 when it does not evaluate or is
/// negative).
pub open spec fn generate_count(upper: Expr, env: Seq<(String, i64)>) -> int {
    let v = const_or(upper, env, 0);
    if v > 0 { (v as usize) as int } else { 0 }
}

/// Number of instances a module body creates: one per instance item, and one per iteration of
/// each generate loop.
pub open spec fn instance_count(items: Seq<CstModuleItem>, env: Seq<(String, i64)>) -> int
    decreases items.len(),
{
    if items.len() == 0 {
        0
    } else {
        instance_count(items.drop_last(), env) + match items.last() {
            CstModuleItem::Instance { .. } => 1,
            CstModuleItem::GenerateFor { upper_expr, .. } => generate_count(upper_expr, env),
            _ => 0,
        }
    }
}

/// `ir` is the port connections `conns` lowered, each expression first with `var` replaced by
/// `k` where `subst` holds.
pub open spec fn conns_lowered(
    conns: Seq<PortConnection>,
    ir: Seq<IrPortConn>,
    subst: bool,
    var: Seq<char>,
    k: i64,
    mem: Seq<String>,
    env: Seq<(String, i64)>,
) -> bool {
    &&& ir.len() == conns.len()
    &&& forall|i: int|
        #![trigger ir[i]]
        0 <= i < ir.len() ==> ir[i].port_name == conns[i].port_name && if subst {
            exists|e: Expr| #[trigger] subst_rel(conns[i].expr, e, var, k) && lower_rel(e, ir[i].expr, mem, env)
        } else {
            lower_rel(conns[i].expr, ir[i].expr, mem, env)
        }
}

/// `ir` is the `#(.param(expr), ...)` pairs `pairs` with each expression lowered.
pub open spec fn params_lowered(pairs: Seq<(String, Expr)>, ir: Seq<(String, IrExpr)>, mem: Seq<String>, env: Seq<(String, i64)>) -> bool {
    &&& ir.len() == pairs.len()
    &&& forall|i: int| #![trigger ir[i]] 0 <= i < ir.len() ==> ir[i].0 == pairs[i].0 && lower_rel(pairs[i].1, ir[i].1, mem, env)
}

/// `insts` are the instances the module items `items` create, in order: an instance item as it
/// is, its expressions lowered; iteration `k` of a generate loop an instance named `stem__k` of
/// the loop's module, its connections with the loop variable replaced by `k`.
pub open spec fn instances_rel(items: Seq<CstModuleItem>, mem: Seq<String>, env: Seq<(String, i64)>, insts: Seq<IrInstance>) -> bool
    decreases items.len(),
{
    &&& insts.len() == instance_count(items, env)
    &&& if items.len() == 0 {
        true
    } else {
        let k = instance_count(items.drop_last(), env);
        &&& instances_rel(items.drop_last(), mem, env, insts.take(k))
        &&& match items.last() {
            CstModuleItem::Instance { module_name, parameter_assignments, instance_name, connections } => {
                &&& insts[k].module_name == module_name
                &&& insts[k].instance_name == instance_name
                &&& params_lowered(parameter_assignments@, insts[k].parameter_assignments@, mem, env)
                &&& conns_lowered(connections@, insts[k].connections@, false, seq![], 0, mem, env)
            },
            CstModuleItem::GenerateFor {
                loop_var,
                upper_expr,
                module_name,
                parameter_assignments,
                instance_stem,
                connections,
            } => forall|j: int|
                #![trigger insts[k + j]]
                0 <= j < generate_count(upper_expr, env) ==> {
                    &&& insts[k + j].module_name == module_name
                    &&& insts[k + j].instance_name@ == joined_name(instance_stem@, signed_decimal_spec(j))
                    &&& params_lowered(parameter_assignments@, insts[k + j].parameter_assignments@, mem, env)
                    &&& conns_lowered(connections@, insts[k + j].connections@, true, loop_var@, j as i64, mem, env)
                },
            _ => true,
        }
    }
}

/// The nets of a module as (name, width) pairs.
pub open spec fn nets_as_widths(nets: Seq<IrNet>) -> Seq<(String, usize)> {
    nets.map_values(|n: IrNet| (n.name, n.width))
}

/// `#(.param(expr), ...)` pairs with each expression lowered.
pub fn lower_param_pairs(pairs: &Vec<(String, Expr)>, mem_stems: &Vec<String>, locals: &ParamEnv) -> (r: Vec<(String, IrExpr)>)
    ensures
        r@.len() == pairs@.len(),
        forall|i: int|
            #![trigger r@[i]]
            0 <= i < r@.len() ==> r@[i].0 == pairs@[i].0 && lower_rel(pairs@[i].1, r@[i].1, mem_stems@, locals@),
{
    let mut out: Vec<(String, IrExpr)> = Vec::new();
    let mut i: usize = 0;
    while i < pairs.len()
        invariant
            i <= pairs.len(),
            out@.len() == i,
            forall|k: int|
                #![trigger out@[k]]
                0 <= k < i ==> out@[k].0 == pairs@[k].0 && lower_rel(pairs@[k].1, out@[k].1, mem_stems@, locals@),
        decreases pairs.len() - i,
    {
        out.push((pairs[i].0.clone(), lower_expr(&pairs[i].1, mem_stems, locals)));
        i = i + 1;
    }
    out
}

/// Port connections with each expression lowered.
pub fn lower_connections(conns: &Vec<PortConnection>, mem_stems: &Vec<String>, locals: &ParamEnv) -> (r: Vec<IrPortConn>)
    ensures
        r@.len() == conns@.len(),
        forall|i: int|
            #![trigger r@[i]]
            0 <= i < r@.len() ==> r@[i].port_name == conns@[i].port_name && lower_rel(
                conns@[i].expr,
                r@[i].expr,
                mem_stems@,
                locals@,
            ),
{
    let mut out: Vec<IrPortConn> = Vec::new();
    let mut i: usize = 0;
    while i < conns.len()
        invariant
            i <= conns.len(),
            out@.len() == i,
            forall|k: int|
                #![trigger out@[k]]
                0 <= k < i ==> out@[k].port_name == conns@[k].port_name && lower_rel(
                    conns@[k].expr,
                    out@[k].expr,
                    mem_stems@,
                    locals@,
                ),
        decreases conns.len() - i,
    {
        let port_name = match &conns[i].port_name {
            Some(n) => Some(n.clone()),
            None => None,
        };
        out.push(IrPortConn { port_name, expr: lower_expr(&conns[i].expr, mem_stems, locals) });
        i = i + 1;
    }
    out
}

/// `r` is the lowering of `cst`: its ports, parameters, nets, unpacked arrays, instances,
/// continuous assignments, `always` and `initial` blocks, as [`ir_module_from_cst`] states them.
pub open spec fn lowered_from(r: IrModule, cst: CstModule) -> bool {
    &&& r.name == cst.name
    &&& r.path == cst.path
    &&& r.ports@ == merged_ports(cst.items@, cst.ports@)
    &&& r.resolved_parameters@ == locals_env(cst.module_parameters@, cst.items@)
    &&& r.mem_arrays@ == mem_arrays_of(cst.items@, r.resolved_parameters@)
    &&& width_view(nets_as_widths(r.nets@)) == net_entries(cst.items@, r.resolved_parameters@)
    &&& r.instances@.len() == instance_count(cst.items@, r.resolved_parameters@)
    &&& instances_rel(cst.items@, stems_of(cst.items@), r.resolved_parameters@, r.instances@)
    &&& r.assigns@.len() == assign_items(cst.items@, stems_of(cst.items@), r.resolved_parameters@).len()
    &&& forall|k: int|
        #![trigger r.assigns@[k]]
        0 <= k < r.assigns@.len() ==> assign_rel(
            assign_items(cst.items@, stems_of(cst.items@), r.resolved_parameters@)[k].0,
            assign_items(cst.items@, stems_of(cst.items@), r.resolved_parameters@)[k].1,
            false,
            IrStmt::BlockingAssign { lhs: r.assigns@[k].lhs, rhs: r.assigns@[k].rhs },
            stems_of(cst.items@),
            r.resolved_parameters@,
            nets_as_widths(r.nets@),
        )
    &&& r.always_blocks@.len() == always_items(cst.items@).len()
    &&& forall|k: int|
        #![trigger r.always_blocks@[k]]
        0 <= k < r.always_blocks@.len() ==> lower_sens_rel(always_items(cst.items@)[k].0, r.always_blocks@[k].sensitivity)
            && lower_stmts_rel(
            always_items(cst.items@)[k].1@,
            r.always_blocks@[k].stmts@,
            stems_of(cst.items@),
            r.resolved_parameters@,
            nets_as_widths(r.nets@),
        )
    &&& r.initial_blocks@.len() == initial_items(cst.items@).len()
    &&& forall|k: int|
        #![trigger r.initial_blocks@[k]]
        0 <= k < r.initial_blocks@.len() ==> lower_stmts_rel(
            initial_items(cst.items@)[k]@,
            r.initial_blocks@[k].stmts@,
            stems_of(cst.items@),
            r.resolved_parameters@,
            nets_as_widths(r.nets@),
        )
}

/// Lowers one module. Ports take their directions from body declarations; parameters resolve
/// in order; nets, unpacked arrays, continuous assignments, `always` and `initial` blocks are
/// lowered item by item; generate loops expand to one instance per iteration (`stem__k`).
pub fn ir_module_from_cst(cst: &CstModule) -> (r: IrModule)
    ensures
        r.name == cst.name,
        r.path == cst.path,
        r.ports@ == merged_ports(cst.items@, cst.ports@),
        r.resolved_parameters@ == locals_env(cst.module_parameters@, cst.items@),
        r.mem_arrays@ == mem_arrays_of(cst.items@, r.resolved_parameters@),
        width_view(nets_as_widths(r.nets@)) == net_entries(cst.items@, r.resolved_parameters@),
        r.instances@.len() == instance_count(cst.items@, r.resolved_parameters@),
        instances_rel(cst.items@, stems_of(cst.items@), r.resolved_parameters@, r.instances@),
        r.assigns@.len() == assign_items(cst.items@, stems_of(cst.items@), r.resolved_parameters@).len(),
        forall|k: int|
            #![trigger r.assigns@[k]]
            0 <= k < r.assigns@.len() ==> assign_rel(
                assign_items(cst.items@, stems_of(cst.items@), r.resolved_parameters@)[k].0,
                assign_items(cst.items@, stems_of(cst.items@), r.resolved_parameters@)[k].1,
                false,
                IrStmt::BlockingAssign { lhs: r.assigns@[k].lhs, rhs: r.assigns@[k].rhs },
                stems_of(cst.items@),
                r.resolved_parameters@,
                nets_as_widths(r.nets@),
            ),
        r.always_blocks@.len() == always_items(cst.items@).len(),
        forall|k: int|
            #![trigger r.always_blocks@[k]]
            0 <= k < r.always_blocks@.len() ==> lower_sens_rel(always_items(cst.items@)[k].0, r.always_blocks@[k].sensitivity)
                && lower_stmts_rel(
                always_items(cst.items@)[k].1@,
                r.always_blocks@[k].stmts@,
                stems_of(cst.items@),
                r.resolved_parameters@,
                nets_as_widths(r.nets@),
            ),
        r.initial_blocks@.len() == initial_items(cst.items@).len(),
        forall|k: int|
            #![trigger r.initial_blocks@[k]]
            0 <= k < r.initial_blocks@.len() ==> lower_stmts_rel(
                initial_items(cst.items@)[k]@,
                r.initial_blocks@[k].stmts@,
                stems_of(cst.items@),
                r.resolved_parameters@,
                nets_as_widths(r.nets@),
            ),
        lowered_from(r, *cst),
{
    let items = &cst.items;
    let mut ports: Vec<Port> = clone_ports(&cst.ports);
    merge_port_directions_from_body(items, &mut ports);
    let locals = module_locals_for_cst(cst);
    let mem_stems = collect_mem_stems(items);
    let mem_arrays = collect_mem_arrays(items, &locals);
    let net_widths = collect_net_widths(items, &locals);
    let mut nets: Vec<IrNet> = Vec::new();
    let mut n: usize = 0;
    while n < net_widths.len()
        invariant
            n <= net_widths.len(),
            nets_as_widths(nets@) == net_widths@.take(n as int),
        decreases net_widths.len() - n,
    {
        let ghost prev = nets@;
        let nm = net_widths[n].0.clone();
        nets.push(IrNet { name: nm, width: net_widths[n].1 });
        assert(nets@ == prev.push(IrNet { name: net_widths@[n as int].0, width: net_widths@[n as int].1 }));
        assert(nets_as_widths(nets@) =~= nets_as_widths(prev).push(net_widths@[n as int]));
        assert(nets_as_widths(nets@) =~= net_widths@.take(n + 1));
        n = n + 1;
    }
    assert(net_widths@.take(net_widths.len() as int) == net_widths@);
    let mut assigns: Vec<IrAssign> = Vec::new();
    let mut instances: Vec<IrInstance> = Vec::new();
    let mut always_blocks: Vec<IrAlways> = Vec::new();
    let mut initial_blocks: Vec<IrInitial> = Vec::new();
    let ghost ws = net_widths@;
    let ghost mem = mem_stems@;
    let ghost env = locals@;
    let mut i: usize = 0;
    while i < items.len()
        invariant
            i <= items.len(),
            ws == net_widths@,
            mem == mem_stems@,
            env == locals@,
            instances@.len() == instance_count(items@.take(i as int), env),
            instances_rel(items@.take(i as int), mem, env, instances@),
            assigns@.len() == assign_items(items@.take(i as int), mem, env).len(),
            forall|k: int|
                #![trigger assigns@[k]]
                0 <= k < assigns@.len() ==> assign_rel(
                    assign_items(items@.take(i as int), mem, env)[k].0,
                    assign_items(items@.take(i as int), mem, env)[k].1,
                    false,
                    IrStmt::BlockingAssign { lhs: assigns@[k].lhs, rhs: assigns@[k].rhs },
                    mem,
                    env,
                    ws,
                ),
            always_blocks@.len() == always_items(items@.take(i as int)).len(),
            forall|k: int|
                #![trigger always_blocks@[k]]
                0 <= k < always_blocks@.len() ==> lower_sens_rel(
                    always_items(items@.take(i as int))[k].0,
                    always_blocks@[k].sensitivity,
                ) && lower_stmts_rel(always_items(items@.take(i as int))[k].1@, always_blocks@[k].stmts@, mem, env, ws),
            initial_blocks@.len() == initial_items(items@.take(i as int)).len(),
            forall|k: int|
                #![trigger initial_blocks@[k]]
                0 <= k < initial_blocks@.len() ==> lower_stmts_rel(
                    initial_items(items@.take(i as int))[k]@,
                    initial_blocks@[k].stmts@,
                    mem,
                    env,
                    ws,
                ),
        decreases items.len() - i,
    {
        assert(items@.take(i + 1).drop_last() == items@.take(i as int));
        assert(items@.take(i + 1).last() == items@[i as int]);
        let ghost inst_before = instances@;
        match &items[i] {
            CstModuleItem::Assign { target, expr } => {
                match lower_continuous_assign(target, expr, &mem_stems, &locals, &net_widths) {
                    Some(a) => {
                        assigns.push(a);
                    },
                    None => {},
                }
            },
            CstModuleItem::Instance { module_name, parameter_assignments, instance_name, connections } => {
                let ghost before = instances@;
                let inst = IrInstance {
                    module_name: module_name.clone(),
                    parameter_assignments: lower_param_pairs(parameter_assignments, &mem_stems, &locals),
                    instance_name: instance_name.clone(),
                    connections: lower_connections(connections, &mem_stems, &locals),
                };
                instances.push(inst);
                proof {
                    assert(instances@.take(before.len() as int) =~= before);
                    assert(instances@[before.len() as int] == inst);
                }
            },
            CstModuleItem::GenerateFor {
                loop_var,
                upper_expr,
                module_name,
                parameter_assignments,
                instance_stem,
                connections,
            } => {
                let v = const_or_exec(upper_expr, &locals, 0);
                let count: usize = if v > 0 { v as usize } else { 0 };
                let ghost start_len = instances@.len();
                let ghost first = instances@;
                assert(count == generate_count(*upper_expr, env));
                assert(count <= i64::MAX);
                let mut k: usize = 0;
                while k < count
                    invariant
                        k <= count <= i64::MAX,
                        start_len == first.len(),
                        instances@.len() == start_len + k,
                        instances@.take(start_len as int) == first,
                        forall|j: int|
                            #![trigger instances@[start_len + j]]
                            0 <= j < k ==> {
                                &&& instances@[start_len + j].module_name == *module_name
                                &&& instances@[start_len + j].instance_name@ == joined_name(
                                    instance_stem@,
                                    signed_decimal_spec(j),
                                )
                                &&& params_lowered(
                                    parameter_assignments@,
                                    instances@[start_len + j].parameter_assignments@,
                                    mem,
                                    env,
                                )
                                &&& conns_lowered(
                                    connections@,
                                    instances@[start_len + j].connections@,
                                    true,
                                    loop_var@,
                                    j as i64,
                                    mem,
                                    env,
                                )
                            },
                        mem == mem_stems@,
                        env == locals@,
                    decreases count - k,
                {
                    let kk: i64 = k as i64;
                    let conns = subst_port_connections(connections, loop_var.as_str(), kk);
                    let inst = IrInstance {
                        module_name: module_name.clone(),
                        parameter_assignments: lower_param_pairs(parameter_assignments, &mem_stems, &locals),
                        instance_name: join_name_index(instance_stem, kk),
                        connections: lower_connections(&conns, &mem_stems, &locals),
                    };
                    let ghost before = instances@;
                    instances.push(inst);
                    proof {
                        assert(kk == k);
                        assert(instances@.take(start_len as int) =~= first) by {
                            assert(before.take(start_len as int) == first);
                        }
                        assert forall|q: int| 0 <= q < inst.connections@.len() implies (#[trigger] inst.connections@[q]).port_name
                            == connections@[q].port_name && exists|e: Expr|
                            #[trigger] subst_rel(connections@[q].expr, e, loop_var@, k as i64) && lower_rel(
                                e,
                                inst.connections@[q].expr,
                                mem,
                                env,
                            ) by {
                            assert(subst_rel(connections@[q].expr, conns@[q].expr, loop_var@, kk));
                        }
                        assert(conns_lowered(connections@, inst.connections@, true, loop_var@, k as i64, mem, env));
                        assert(params_lowered(parameter_assignments@, inst.parameter_assignments@, mem, env));
                        assert forall|j: int|
                            #![trigger instances@[start_len + j]]
                            0 <= j < k + 1 implies {
                                &&& instances@[start_len + j].module_name == *module_name
                                &&& instances@[start_len + j].instance_name@ == joined_name(
                                    instance_stem@,
                                    signed_decimal_spec(j),
                                )
                                &&& params_lowered(
                                    parameter_assignments@,
                                    instances@[start_len + j].parameter_assignments@,
                                    mem,
                                    env,
                                )
                                &&& conns_lowered(
                                    connections@,
                                    instances@[start_len + j].connections@,
                                    true,
                                    loop_var@,
                                    j as i64,
                                    mem,
                                    env,
                                )
                            } by {
                            if j < k {
                                assert(instances@[start_len + j] == before[start_len + j]);
                            } else {
                                assert(instances@[start_len + j] == inst);
                            }
                        }
                    }
                    k = k + 1;
                }
            },
            CstModuleItem::Always { sensitivity, body } => {
                always_blocks.push(lower_always(sensitivity, body, &mem_stems, &locals, &net_widths));
            },
            CstModuleItem::Initial { body } => {
                initial_blocks.push(IrInitial { stmts: lower_stmts(body, &mem_stems, &locals, &net_widths) });
            },
            _ => {},
        }
        proof {
            let t = items@.take(i + 1);
            assert(instances@.take(inst_before.len() as int) =~= inst_before);
            assert(instances@.take(instances@.len() as int) =~= instances@);
            assert(instances_rel(t.drop_last(), mem, env, instances@.take(instance_count(t.drop_last(), env))));
        }
        i = i + 1;
    }
    assert(items@.take(items.len() as int) == items@);
    IrModule {
        name: cst.name.clone(),
        path: cst.path.clone(),
        ports,
        nets,
        assigns,
        instances,
        always_blocks,
        initial_blocks,
        mem_arrays,
        resolved_parameters: locals,
    }
}

/// A copy of `ports`, field by field.
pub fn clone_ports(ports: &Vec<Port>) -> (r: Vec<Port>)
    ensures
        r@ == ports@,
{
    let mut out: Vec<Port> = Vec::new();
    let mut i: usize = 0;
    while i < ports.len()
        invariant
            i <= ports.len(),
            out@ == ports@.take(i as int),
        decreases ports.len() - i,
    {
        let p = &ports[i];
        let direction = match &p.direction {
            Some(d) => Some(d.clone()),
            None => None,
        };
        out.push(Port { direction, name: p.name.clone(), width: p.width });
        assert(out@ =~= ports@.take(i + 1));
        i = i + 1;
    }
    assert(ports@.take(ports.len() as int) == ports@);
    out
}

// ---------------------------------------------------------------------------------------------
// Parameter elaboration
// ---------------------------------------------------------------------------------------------

/// Names and values of evaluated parameter overrides.
pub open spec fn pv(s: Seq<(String, i64)>) -> Seq<(Seq<char>, i64)> {
    s.map_values(|p: (String, i64)| (p.0@, p.1))
}

/// Lexicographic order of character sequences (by code point).
pub open spec fn seq_less(a: Seq<char>, b: Seq<char>) -> bool
    decreases a.len(),
{
    if a.len() == 0 {
        b.len() > 0
    } else if b.len() == 0 {
        false
    } else if (a[0] as u32) < (b[0] as u32) {
        true
    } else if (a[0] as u32) > (b[0] as u32) {
        false
    } else {
        seq_less(a.drop_first(), b.drop_first())
    }
}

/// Whether `a` sorts before `b` (by code point, which is the byte order of their UTF-8 text).
pub fn lex_less(a: &String, b: &String) -> (r: bool)
    ensures
        r == seq_less(a@, b@),
{
    let x = chars_of(a.as_str());
    let y = chars_of(b.as_str());
    let mut i: usize = 0;
    assert(a@.skip(0) == a@);
    assert(b@.skip(0) == b@);
    while i < x.len() && i < y.len()
        invariant
            x@ == a@,
            y@ == b@,
            i <= x.len(),
            i <= y.len(),
            seq_less(a@, b@) == seq_less(a@.skip(i as int), b@.skip(i as int)),
        decreases x.len() - i,
    {
        let cx = x[i] as u32;
        let cy = y[i] as u32;
        assert(a@.skip(i as int)[0] == x@[i as int]);
        assert(b@.skip(i as int)[0] == y@[i as int]);
        if cx < cy {
            return true;
        }
        if cx > cy {
            return false;
        }
        assert(a@.skip(i as int).drop_first() == a@.skip(i + 1));
        assert(b@.skip(i as int).drop_first() == b@.skip(i + 1));
        i = i + 1;
    }
    proof {
        if i == x.len() {
            assert(a@.skip(i as int).len() == 0);
        } else {
            assert(b@.skip(i as int).len() == 0);
        }
    }
    i == x.len() && i < y.len()
}

/// `s` (sorted by name) with `(n, v)` inserted in order, replacing an entry named `n`.
pub open spec fn insert_param(s: Seq<(Seq<char>, i64)>, n: Seq<char>, v: i64) -> Seq<(Seq<char>, i64)>
    decreases s.len(),
{
    if s.len() == 0 {
        seq![(n, v)]
    } else if seq_less(n, s[0].0) {
        seq![(n, v)] + s
    } else if n == s[0].0 {
        seq![(n, v)] + s.drop_first()
    } else {
        seq![s[0]] + insert_param(s.drop_first(), n, v)
    }
}

/// No sequence sorts before itself.
pub proof fn lemma_seq_less_irreflexive(a: Seq<char>)
    ensures
        !seq_less(a, a),
    decreases a.len(),
{
    if a.len() > 0 {
        lemma_seq_less_irreflexive(a.drop_first());
    }
}

proof fn lemma_insert_param_at(s: Seq<(Seq<char>, i64)>, n: Seq<char>, v: i64, i: int)
    requires
        0 <= i <= s.len(),
        forall|j: int| 0 <= j < i ==> !seq_less(n, (#[trigger] s[j]).0) && n != s[j].0,
        i < s.len() ==> seq_less(n, s[i].0) || n == s[i].0,
    ensures
        insert_param(s, n, v) == if i < s.len() && n == s[i].0 {
            s.take(i) + seq![(n, v)] + s.skip(i + 1)
        } else {
            s.take(i) + seq![(n, v)] + s.skip(i)
        },
    decreases i,
{
    if i > 0 {
        let t = s.drop_first();
        assert(!seq_less(n, s[0].0) && n != s[0].0);
        assert forall|j: int| 0 <= j < i - 1 implies !seq_less(n, (#[trigger] t[j]).0) && n != t[j].0 by {
            assert(t[j] == s[j + 1]);
        }
        if i < s.len() {
            assert(t[i - 1] == s[i]);
        }
        lemma_insert_param_at(t, n, v, i - 1);
        assert(insert_param(s, n, v) == seq![s[0]] + insert_param(t, n, v));
        assert(s.take(i) =~= seq![s[0]] + t.take(i - 1));
        assert(s.skip(i) =~= t.skip(i - 1));
        if i < s.len() {
            assert(s.skip(i + 1) =~= t.skip(i));
            if n == s[i].0 {
                assert(insert_param(s, n, v) =~= s.take(i) + seq![(n, v)] + s.skip(i + 1));
            } else {
                assert(insert_param(s, n, v) =~= s.take(i) + seq![(n, v)] + s.skip(i));
            }
        } else {
            assert(insert_param(s, n, v) =~= s.take(i) + seq![(n, v)] + s.skip(i));
        }
    } else {
        if s.len() == 0 {
            assert(insert_param(s, n, v) =~= s.take(i) + seq![(n, v)] + s.skip(i));
        } else if n == s[0].0 {
            lemma_seq_less_irreflexive(n);
            assert(insert_param(s, n, v) =~= s.take(i) + seq![(n, v)] + s.skip(i + 1));
        } else {
            assert(insert_param(s, n, v) =~= s.take(i) + seq![(n, v)] + s.skip(i));
        }
    }
}

/// Inserts `(name, val)` into the name-sorted list `v` (see [`insert_param`]).
pub fn insert_param_sorted(v: &mut Vec<(String, i64)>, name: &String, val: i64)
    ensures
        pv(final(v)@) == insert_param(pv(old(v)@), name@, val),
{
    let mut i: usize = 0;
    while i < v.len()
        invariant
            i <= v.len(),
            *v == *old(v),
            forall|j: int| 0 <= j < i ==> !seq_less(name@, (#[trigger] pv(v@)[j]).0) && name@ != pv(v@)[j].0,
        ensures
            i <= v.len(),
            *v == *old(v),
            forall|j: int| 0 <= j < i ==> !seq_less(name@, (#[trigger] pv(v@)[j]).0) && name@ != pv(v@)[j].0,
            i < v.len() ==> seq_less(name@, pv(v@)[i as int].0) || name@ == pv(v@)[i as int].0,
        decreases v.len() - i,
    {
        if lex_less(name, &v[i].0) || v[i].0 == *name {
            break;
        }
        i = i + 1;
    }
    proof {
        lemma_insert_param_at(pv(v@), name@, val, i as int);
    }
    let ghost s = v@;
    if i < v.len() && v[i].0 == *name {
        v.set(i, (name.clone(), val));
        assert(pv(v@) =~= pv(s).take(i as int) + seq![(name@, val)] + pv(s).skip(i + 1));
    } else {
        v.insert(i, (name.clone(), val));
        assert(pv(v@) =~= pv(s).take(i as int) + seq![(name@, val)] + pv(s).skip(i as int));
    }
}

/// Override values of an instance: each `(name, expr)` evaluated under the parent's
/// parameters and inserted by name; `None` when one does not evaluate.
pub open spec fn param_values(assigns: Seq<(String, IrExpr)>, known: Seq<(String, i64)>) -> Option<Seq<(Seq<char>, i64)>>
    decreases assigns.len(),
{
    if assigns.len() == 0 {
        Some(seq![])
    } else {
        match (param_values(assigns.drop_last(), known), ir_param_spec(assigns.last().1, known)) {
            (Some(s), Some(v)) => Some(insert_param(s, assigns.last().0@, v)),
            _ => None,
        }
    }
}

/// Evaluates an instance's overrides (see [`param_values`]).
pub fn evaluate_overrides(assigns: &Vec<(String, IrExpr)>, known: &ParamEnv) -> (r: Option<Vec<(String, i64)>>)
    ensures
        match r {
            Some(v) => param_values(assigns@, known@) == Some(pv(v@)),
            None => param_values(assigns@, known@) is None,
        },
{
    let mut out: Vec<(String, i64)> = Vec::new();
    let mut ok = true;
    let mut i: usize = 0;
    while i < assigns.len()
        invariant
            i <= assigns.len(),
            ok ==> param_values(assigns@.take(i as int), known@) == Some(pv(out@)),
            !ok ==> param_values(assigns@.take(i as int), known@) is None,
        decreases assigns.len() - i,
    {
        assert(assigns@.take(i + 1).drop_last() == assigns@.take(i as int));
        match eval_ir_param_expr(&assigns[i].1, known) {
            Some(v) => {
                if ok {
                    insert_param_sorted(&mut out, &assigns[i].0, v);
                }
            },
            None => {
                ok = false;
            },
        }
        i = i + 1;
    }
    assert(assigns@.take(assigns.len() as int) == assigns@);
    if ok { Some(out) } else { None }
}

/// Name of a module specialised for `pairs`: `base__p` then `_name_value` per override.
pub open spec fn specialized_name_spec(base: Seq<char>, pairs: Seq<(Seq<char>, i64)>) -> Seq<char>
    decreases pairs.len(),
{
    if pairs.len() == 0 {
        base + seq!['_', '_', 'p']
    } else {
        specialized_name_spec(base, pairs.drop_last()) + seq!['_'] + pairs.last().0 + seq!['_'] + signed_decimal_spec(
            pairs.last().1 as int,
        )
    }
}

/// Name of a module specialised for the sorted overrides `sorted_pairs` (see
/// [`specialized_name_spec`]).
pub fn specialized_module_name(base: &String, sorted_pairs: &Vec<(String, i64)>) -> (r: String)
    ensures
        r@ == specialized_name_spec(base@, pv(sorted_pairs@)),
{
    let mut text = concat_chars(&chars_of(base.as_str()), &['_', '_', 'p']);
    assert(seq!['_', '_', 'p'] == ['_', '_', 'p']@);
    let mut i: usize = 0;
    while i < sorted_pairs.len()
        invariant
            i <= sorted_pairs.len(),
            text@ == specialized_name_spec(base@, pv(sorted_pairs@.take(i as int))),
        decreases sorted_pairs.len() - i,
    {
        assert(pv(sorted_pairs@.take(i + 1)).drop_last() =~= pv(sorted_pairs@.take(i as int)));
        text.push('_');
        text = concat_chars(&text, &chars_of(sorted_pairs[i].0.as_str()));
        text.push('_');
        text = concat_chars(&text, &i64_to_chars(sorted_pairs[i].1));
        i = i + 1;
    }
    assert(sorted_pairs@.take(sorted_pairs.len() as int) == sorted_pairs@);
    string_from_chars(&text)
}

/// The template named `name`: the last module of `csts` with that name.
pub open spec fn template_of(csts: Seq<CstModule>, name: Seq<char>) -> Option<int>
    decreases csts.len(),
{
    if csts.len() == 0 {
        None
    } else if csts.last().name@ == name {
        Some(csts.len() - 1)
    } else {
        template_of(csts.drop_last(), name)
    }
}

fn find_template(csts: &Vec<CstModule>, name: &String) -> (r: Option<usize>)
    ensures
        r matches Some(i) ==> template_of(csts@, name@) == Some(i as int) && i < csts@.len(),
        r is None ==> template_of(csts@, name@) is None,
{
    let mut i = csts.len();
    assert(csts@.take(i as int) == csts@);
    while i > 0
        invariant
            i <= csts.len(),
            template_of(csts@, name@) == template_of(csts@.take(i as int), name@),
        decreases i,
    {
        assert(csts@.take(i as int).drop_last() == csts@.take(i - 1));
        if csts[i - 1].name == *name {
            return Some(i - 1);
        }
        i = i - 1;
    }
    None
}

/// Index of the first parameter named `name` from `k` on.
pub open spec fn first_param_from(params: Seq<(String, Expr)>, name: Seq<char>, k: int) -> Option<int>
    decreases params.len() - k,
{
    if k < 0 || k >= params.len() {
        None
    } else if params[k].0@ == name {
        Some(k)
    } else {
        first_param_from(params, name, k + 1)
    }
}

/// Sets the first header parameter named `name` to the literal `value`.
fn override_module_parameter(params: &mut Vec<(String, Expr)>, name: &String, value: i64)
    ensures
        final(params)@.len() == old(params)@.len(),
        match first_param_from(old(params)@, name@, 0) {
            None => final(params)@ == old(params)@,
            Some(i) => {
                &&& forall|j: int| 0 <= j < old(params)@.len() && j != i ==> final(params)@[j] == old(params)@[j]
                &&& final(params)@[i].0 == old(params)@[i].0
                &&& final(params)@[i].1 matches Expr::Number(s) && s@ == signed_decimal_spec(value as int)
            },
        },
{
    let mut i: usize = 0;
    while i < params.len()
        invariant
            i <= params.len(),
            *params == *old(params),
            first_param_from(params@, name@, 0) == first_param_from(params@, name@, i as int),
        decreases params.len() - i,
    {
        if params[i].0 == *name {
            let n = params[i].0.clone();
            params.set(i, (n, Expr::Number(i64_to_string(value))));
            return;
        }
        i = i + 1;
    }
}

/// Whether two override lists have the same names and values.
fn same_pairs(a: &Vec<(String, i64)>, b: &Vec<(String, i64)>) -> (r: bool)
    ensures
        r == (pv(a@) == pv(b@)),
{
    if a.len() != b.len() {
        proof {
            assert(pv(a@).len() != pv(b@).len());
        }
        return false;
    }
    let mut i: usize = 0;
    while i < a.len()
        invariant
            a.len() == b.len(),
            i <= a.len(),
            forall|j: int| 0 <= j < i ==> pv(a@)[j] == pv(b@)[j],
        decreases a.len() - i,
    {
        if !(a[i].0 == b[i].0 && a[i].1 == b[i].1) {
            proof {
                assert(pv(a@)[i as int] != pv(b@)[i as int]);
            }
            return false;
        }
        i = i + 1;
    }
    assert(pv(a@) =~= pv(b@));
    true
}

/// The elements of `v` in reverse order.
pub fn reversed<T>(v: Vec<T>) -> (r: Vec<T>)
    ensures
        r@ == v@.reverse(),
{
    let mut v = v;
    let ghost orig = v@;
    let mut r: Vec<T> = Vec::new();
    while v.len() > 0
        invariant
            v@ == orig.take(v@.len() as int),
            r@ == orig.skip(v@.len() as int).reverse(),
            v@.len() <= orig.len(),
        decreases v@.len(),
    {
        let ghost before = v@;
        let ghost r0 = r@;
        let ghost n: int = before.len() as int;
        let x = v.pop().unwrap();
        proof {
            assert(x == before[n - 1]);
            assert(before[n - 1] == orig[n - 1]);
            assert(v@ =~= orig.take(n - 1));
        }
        r.push(x);
        proof {
            assert forall|q: int| 0 <= q < r@.len() implies r@[q] == orig.skip(n - 1).reverse()[q] by {
                if q < r0.len() {
                    assert(r0[q] == orig.skip(n).reverse()[q]);
                }
            }
            assert(r@ =~= orig.skip(v@.len() as int).reverse());
        }
    }
    r
}

/// An empty module, used as a placeholder while a module is being rewritten.
fn placeholder_module() -> (m: IrModule)
    ensures
        m.name@.len() == 0,
        m.path@.len() == 0,
        m.ports@.len() == 0,
        m.nets@.len() == 0,
        m.assigns@.len() == 0,
        m.instances@.len() == 0,
        m.always_blocks@.len() == 0,
        m.initial_blocks@.len() == 0,
        m.mem_arrays@.len() == 0,
        m.resolved_parameters@.len() == 0,
{
    IrModule {
        name: String::new(),
        path: String::new(),
        ports: Vec::new(),
        nets: Vec::new(),
        assigns: Vec::new(),
        instances: Vec::new(),
        always_blocks: Vec::new(),
        initial_blocks: Vec::new(),
        mem_arrays: Vec::new(),
        resolved_parameters: Vec::new(),
    }
}

/// What elaboration does to one instance of a module whose parameters are `known`: without
/// overrides, or when they do not all evaluate or the child has no template, it is kept;
/// otherwise it names the child specialised for the evaluated overrides, which it no longer
/// carries.
pub open spec fn elaborated_instance(before: IrInstance, after: IrInstance, known: Seq<(String, i64)>, csts: Seq<CstModule>) -> bool {
    &&& after.instance_name == before.instance_name
    &&& after.connections@.len() == before.connections@.len()
    &&& if before.parameter_assignments@.len() > 0 && param_values(before.parameter_assignments@, known) is Some
        && template_of(csts, before.module_name@) is Some {
        &&& after.module_name@ == specialized_name_spec(
            before.module_name@,
            param_values(before.parameter_assignments@, known).unwrap(),
        )
        &&& after.parameter_assignments@.len() == 0
    } else {
        &&& after.module_name == before.module_name
        &&& after.parameter_assignments@.len() == before.parameter_assignments@.len()
    }
}

/// `m` was lowered from the template `csts` holds for some module name `base`, specialised by
/// parameter overrides `ps`: it has the template's path and the name
/// [`specialized_name_spec`]`(base, ps)`.
#[verifier::opaque]
pub open spec fn from_template(m: IrModule, csts: Seq<CstModule>) -> bool {
    exists|base: Seq<char>, ps: Seq<(Seq<char>, i64)>|
        #[trigger] specialized_name_spec(base, ps) == m.name@ && (template_of(csts, base) matches Some(t) && 0 <= t
            < csts.len() && m.path == csts[t].path)
}

/// The instance `b` (in a module whose parameters are `known`) is pointed at a specialised
/// module: it has parameter overrides that all evaluate, and its module has a template.
pub open spec fn specialised_here(b: IrInstance, known: Seq<(String, i64)>, csts: Seq<CstModule>) -> bool {
    b.parameter_assignments@.len() > 0 && param_values(b.parameter_assignments@, known) is Some && template_of(
        csts,
        b.module_name@,
    ) is Some
}

/// A module named `name` stands in `modules` at position `from` or later.
pub open spec fn added_module_named(modules: Seq<IrModule>, from: int, name: Seq<char>) -> bool {
    exists|k: int| from <= k < modules.len() && (#[trigger] modules[k]).name@ == name
}

/// [`added_module_named`] survives a change that keeps the names from `from` on and only appends.
proof fn lemma_added_module_kept(a: Seq<IrModule>, b: Seq<IrModule>, from: int, name: Seq<char>)
    requires
        a.len() <= b.len(),
        forall|k: int| from <= k < a.len() ==> (#[trigger] b[k]).name == a[k].name,
        added_module_named(a, from, name),
    ensures
        added_module_named(b, from, name),
{
    let k = choose|k: int| from <= k < a.len() && (#[trigger] a[k]).name@ == name;
    assert(b[k].name == a[k].name);
}

/// `a` is `b` up to its instances: every other field is the same.
pub open spec fn same_but_instances(a: IrModule, b: IrModule) -> bool {
    &&& a.name == b.name
    &&& a.path == b.path
    &&& a.ports == b.ports
    &&& a.nets == b.nets
    &&& a.assigns == b.assigns
    &&& a.always_blocks == b.always_blocks
    &&& a.initial_blocks == b.initial_blocks
    &&& a.mem_arrays == b.mem_arrays
    &&& a.resolved_parameters == b.resolved_parameters
}

/// Cache entries: a base module, its overrides and the specialised module's name.
pub open spec fn cache_ok(cache: Seq<(String, Vec<(String, i64)>, String)>, csts: Seq<CstModule>) -> bool {
    forall|c: int|
        #![trigger cache[c]]
        0 <= c < cache.len() ==> cache[c].2@ == specialized_name_spec(cache[c].0@, pv(cache[c].1@)) && template_of(
            csts,
            cache[c].0@,
        ) is Some
}

/// Rewrites the instances of module `mi` that override parameters (see [`elaborated_instance`]),
/// adding one specialised module per new (module, overrides) combination.
fn elaborate_module(
    project: &mut IrProject,
    mi: usize,
    csts: &Vec<CstModule>,
    cache: &mut Vec<(String, Vec<(String, i64)>, String)>,
    Ghost(first): Ghost<int>,
)
    requires
        mi < first <= old(project).modules@.len(),
        cache_ok(old(cache)@, csts@),
        forall|c: int| 0 <= c < old(cache)@.len() ==> added_module_named(old(project).modules@, first, (#[trigger] old(cache)@[c]).2@),
    ensures
        cache_ok(final(cache)@, csts@),
        forall|c: int| 0 <= c < final(cache)@.len() ==> added_module_named(final(project).modules@, first, (#[trigger] final(cache)@[c]).2@),
        forall|j: int|
            0 <= j < old(project).modules@[mi as int].instances@.len() && specialised_here(
                old(project).modules@[mi as int].instances@[j],
                old(project).modules@[mi as int].resolved_parameters@,
                csts@,
            ) ==> added_module_named(
                final(project).modules@,
                first,
                (#[trigger] final(project).modules@[mi as int].instances@[j]).module_name@,
            ),
        final(project).modules@.len() >= old(project).modules@.len(),
        final(project).diagnostics == old(project).diagnostics,
        forall|j: int|
            0 <= j < old(project).modules@.len() && j != mi ==> #[trigger] final(project).modules@[j] == old(
                project,
            ).modules@[j],
        same_but_instances(final(project).modules@[mi as int], old(project).modules@[mi as int]),
        final(project).modules@[mi as int].instances@.len() == old(project).modules@[mi as int].instances@.len(),
        forall|j: int|
            #![trigger final(project).modules@[mi as int].instances@[j]]
            0 <= j < old(project).modules@[mi as int].instances@.len() ==> elaborated_instance(
                old(project).modules@[mi as int].instances@[j],
                final(project).modules@[mi as int].instances@[j],
                old(project).modules@[mi as int].resolved_parameters@,
                csts@,
            ),
        forall|k: int|
            #![trigger final(project).modules@[k]]
            old(project).modules@.len() <= k < final(project).modules@.len() ==> from_template(final(project).modules@[k], csts@),
{
    let mut module = placeholder_module();
    project.modules.set_and_swap(mi, &mut module);
    proof {
        assert forall|k: int| first <= k < old(project).modules@.len() implies (#[trigger] project.modules@[k]).name
            == old(project).modules@[k].name by {}
        assert forall|c: int| 0 <= c < cache@.len() implies added_module_named(project.modules@, first, (#[trigger] cache@[c]).2@) by {
            lemma_added_module_kept(old(project).modules@, project.modules@, first, cache@[c].2@);
        }
    }
    let ghost old_module = module;
    let mut instances: Vec<IrInstance> = Vec::new();
    std::mem::swap(&mut instances, &mut module.instances);
    let ghost old_insts = instances@;
    let mut instances = reversed(instances);
    assert(old_insts.skip(0) == old_insts);
    let known = &module.resolved_parameters;
    let mut new_insts: Vec<IrInstance> = Vec::new();
    let ghost base_len = project.modules@.len();
    while instances.len() > 0
        invariant
            instances@.len() + new_insts@.len() == old_insts.len(),
            instances@ == old_insts.skip(new_insts@.len() as int).reverse(),
            module.resolved_parameters == old_module.resolved_parameters,
            same_but_instances(module, old_module),
            cache_ok(cache@, csts@),
            project.modules@.len() >= base_len,
            project.diagnostics == old(project).diagnostics,
            forall|j: int| 0 <= j < base_len && j != mi ==> #[trigger] project.modules@[j] == old(project).modules@[j],
            base_len == old(project).modules@.len(),
            mi < base_len,
            forall|j: int|
                #![trigger new_insts@[j]]
                0 <= j < new_insts@.len() ==> elaborated_instance(old_insts[j], new_insts@[j], known@, csts@),
            forall|k: int|
                #![trigger project.modules@[k]]
                base_len <= k < project.modules@.len() ==> from_template(project.modules@[k], csts@),
            mi < first <= base_len,
            forall|c: int| 0 <= c < cache@.len() ==> added_module_named(project.modules@, first, (#[trigger] cache@[c]).2@),
            forall|j: int|
                0 <= j < new_insts@.len() && specialised_here(old_insts[j], known@, csts@) ==> added_module_named(
                    project.modules@,
                    first,
                    (#[trigger] new_insts@[j]).module_name@,
                ),
        decreases instances@.len(),
    {
        let mut inst = instances.pop().unwrap();
        proof {
            let n = new_insts@.len() as int;
            assert(inst == old_insts[n]);
            assert(instances@ =~= old_insts.skip(n + 1).reverse());
        }
        if inst.parameter_assignments.len() == 0 {
            new_insts.push(inst);
            continue;
        }
        let pairs = match evaluate_overrides(&inst.parameter_assignments, known) {
            Some(p) => p,
            None => {
                new_insts.push(inst);
                continue;
            },
        };
        let t = match find_template(csts, &inst.module_name) {
            Some(t) => t,
            None => {
                new_insts.push(inst);
                continue;
            },
        };
        let mut found: Option<String> = None;
        let mut c: usize = 0;
        while c < cache.len()
            invariant
                c <= cache.len(),
                cache_ok(cache@, csts@),
                found matches Some(n) ==> n@ == specialized_name_spec(inst.module_name@, pv(pairs@)),
                forall|c: int| 0 <= c < cache@.len() ==> added_module_named(project.modules@, first, (#[trigger] cache@[c]).2@),
                found matches Some(n) ==> added_module_named(project.modules@, first, n@),
            decreases cache.len() - c,
        {
            if cache[c].0 == inst.module_name && same_pairs(&cache[c].1, &pairs) {
                found = Some(cache[c].2.clone());
                break;
            }
            c = c + 1;
        }
        let spec_name = match found {
            Some(n) => n,
            None => {
                let template = &csts[t];
                let mut specialized = template.clone();
                let mut q: usize = 0;
                while q < pairs.len()
                    invariant
                        q <= pairs.len(),
                    decreases pairs.len() - q,
                {
                    override_module_parameter(&mut specialized.module_parameters, &pairs[q].0, pairs[q].1);
                    q = q + 1;
                }
                let name = specialized_module_name(&inst.module_name, &pairs);
                specialized.name = name.clone();
                specialized.path = template.path.clone();
                let ir_mod = ir_module_from_cst(&specialized);
                let ghost before_mods = project.modules@;
                let ghost before_cache = cache@;
                cache.push((inst.module_name.clone(), pairs, name.clone()));
                project.modules.push(ir_mod);
                proof {
                    let k = project.modules@.len() - 1;
                    assert(project.modules@[k].name@ == name@);
                    assert(added_module_named(project.modules@, first, name@));
                    assert forall|c: int| 0 <= c < cache@.len() implies added_module_named(
                        project.modules@,
                        first,
                        (#[trigger] cache@[c]).2@,
                    ) by {
                        if c < before_cache.len() {
                            assert(cache@[c] == before_cache[c]);
                            lemma_added_module_kept(before_mods, project.modules@, first, cache@[c].2@);
                        }
                    }
                    assert forall|j: int|
                        0 <= j < new_insts@.len() && specialised_here(old_insts[j], known@, csts@) implies added_module_named(
                        project.modules@,
                        first,
                        (#[trigger] new_insts@[j]).module_name@,
                    ) by {
                        lemma_added_module_kept(before_mods, project.modules@, first, new_insts@[j].module_name@);
                    }
                    assert(project.modules@[k].path == csts@[t as int].path);
                    assert(project.modules@[k].name@ == specialized_name_spec(inst.module_name@, pv(pairs@)));
                    reveal(from_template);
                    assert(from_template(project.modules@[k], csts@));
                }
                name
            },
        };
        let ghost target = spec_name@;
        inst.module_name = spec_name;
        inst.parameter_assignments = Vec::new();
        let ghost before_new = new_insts@;
        new_insts.push(inst);
        proof {
            assert(added_module_named(project.modules@, first, target));
            assert forall|j: int|
                0 <= j < new_insts@.len() && specialised_here(old_insts[j], known@, csts@) implies added_module_named(
                project.modules@,
                first,
                (#[trigger] new_insts@[j]).module_name@,
            ) by {
                if j < before_new.len() {
                    assert(new_insts@[j] == before_new[j]);
                }
            }
        }
    }
    module.instances = new_insts;
    let ghost prev = project.modules@;
    project.modules.set_and_swap(mi, &mut module);
    proof {
        assert forall|k: int| first <= k < prev.len() implies (#[trigger] project.modules@[k]).name == prev[k].name by {}
        assert forall|c: int| 0 <= c < cache@.len() implies added_module_named(project.modules@, first, (#[trigger] cache@[c]).2@) by {
            lemma_added_module_kept(prev, project.modules@, first, cache@[c].2@);
        }
        assert forall|j: int|
            0 <= j < old(project).modules@[mi as int].instances@.len() && specialised_here(
                old(project).modules@[mi as int].instances@[j],
                old(project).modules@[mi as int].resolved_parameters@,
                csts@,
            ) implies added_module_named(
            project.modules@,
            first,
            (#[trigger] project.modules@[mi as int].instances@[j]).module_name@,
        ) by {
            assert(project.modules@[mi as int].instances@[j] == new_insts@[j]);
            lemma_added_module_kept(prev, project.modules@, first, new_insts@[j].module_name@);
        }
        assert forall|k: int|
            #![trigger project.modules@[k]]
            base_len <= k < project.modules@.len() implies from_template(project.modules@[k], csts@) by {
            assert(project.modules@[k] == prev[k]);
        }
    }
}

/// For each instance with `#(.param(expr), ...)` overrides that all evaluate under its parent's
/// parameters, lowers a copy of the child's template (`csts`, the last module of each name) with
/// those values under the name [`specialized_name_spec`] — once per distinct (module, overrides)
/// — and points the instance at it. Modules added this way are not themselves elaborated.
pub fn elaborate_parameterized_modules(project: &mut IrProject, csts: &Vec<CstModule>)
    ensures
        final(project).modules@.len() >= old(project).modules@.len(),
        final(project).diagnostics == old(project).diagnostics,
        forall|mi: int|
            #![trigger final(project).modules@[mi]]
            0 <= mi < old(project).modules@.len() ==> {
                let b = old(project).modules@[mi];
                let a = final(project).modules@[mi];
                &&& same_but_instances(a, b)
                &&& a.instances@.len() == b.instances@.len()
                &&& forall|j: int|
                    #![trigger a.instances@[j]]
                    0 <= j < b.instances@.len() ==> elaborated_instance(
                        b.instances@[j],
                        a.instances@[j],
                        b.resolved_parameters@,
                        csts@,
                    )
            },
        forall|k: int|
            #![trigger final(project).modules@[k]]
            old(project).modules@.len() <= k < final(project).modules@.len() ==> from_template(final(project).modules@[k], csts@),
        forall|mi: int, j: int|
            0 <= mi < old(project).modules@.len() && 0 <= j < old(project).modules@[mi].instances@.len()
                && specialised_here(
                old(project).modules@[mi].instances@[j],
                old(project).modules@[mi].resolved_parameters@,
                csts@,
            ) ==> added_module_named(
                final(project).modules@,
                old(project).modules@.len() as int,
                (#[trigger] final(project).modules@[mi].instances@[j]).module_name@,
            ),
{
    let initial_len = project.modules.len();
    let mut cache: Vec<(String, Vec<(String, i64)>, String)> = Vec::new();
    let mut mi: usize = 0;
    while mi < initial_len
        invariant
            mi <= initial_len == old(project).modules@.len(),
            project.modules@.len() >= initial_len,
            project.diagnostics == old(project).diagnostics,
            cache_ok(cache@, csts@),
            forall|j: int| mi <= j < initial_len ==> #[trigger] project.modules@[j] == old(project).modules@[j],
            forall|j: int|
                #![trigger project.modules@[j]]
                0 <= j < mi ==> {
                    let b = old(project).modules@[j];
                    let a = project.modules@[j];
                    &&& same_but_instances(a, b)
                    &&& a.instances@.len() == b.instances@.len()
                    &&& forall|q: int|
                        #![trigger a.instances@[q]]
                        0 <= q < b.instances@.len() ==> elaborated_instance(
                            b.instances@[q],
                            a.instances@[q],
                            b.resolved_parameters@,
                            csts@,
                        )
                },
            forall|k: int|
                #![trigger project.modules@[k]]
                initial_len <= k < project.modules@.len() ==> from_template(project.modules@[k], csts@),
            forall|c: int| 0 <= c < cache@.len() ==> added_module_named(project.modules@, initial_len as int, (#[trigger] cache@[c]).2@),
            forall|a: int, j: int|
                0 <= a < mi && 0 <= j < old(project).modules@[a].instances@.len() && specialised_here(
                    old(project).modules@[a].instances@[j],
                    old(project).modules@[a].resolved_parameters@,
                    csts@,
                ) ==> added_module_named(
                    project.modules@,
                    initial_len as int,
                    (#[trigger] project.modules@[a].instances@[j]).module_name@,
                ),
        decreases initial_len - mi,
    {
        let ghost prev = project.modules@;
        elaborate_module(project, mi, csts, &mut cache, Ghost(initial_len as int));
        proof {
            assert forall|k: int| initial_len <= k < prev.len() implies (#[trigger] project.modules@[k]).name == prev[k].name by {
                assert(project.modules@[k] == prev[k]);
            }
            assert forall|a: int, j: int|
                0 <= a < mi + 1 && 0 <= j < old(project).modules@[a].instances@.len() && specialised_here(
                    old(project).modules@[a].instances@[j],
                    old(project).modules@[a].resolved_parameters@,
                    csts@,
                ) implies added_module_named(
                project.modules@,
                initial_len as int,
                (#[trigger] project.modules@[a].instances@[j]).module_name@,
            ) by {
                if a < mi {
                    assert(project.modules@[a] == prev[a]);
                    lemma_added_module_kept(prev, project.modules@, initial_len as int, prev[a].instances@[j].module_name@);
                } else {
                    assert(prev[a] == old(project).modules@[a]);
                }
            }
            assert forall|k: int|
                #![trigger project.modules@[k]]
                initial_len <= k < project.modules@.len() implies from_template(project.modules@[k], csts@) by {
                if k < prev.len() {
                    assert(project.modules@[k] == prev[k]);
                }
            }
        }
        mi = mi + 1;
    }
}

// ---------------------------------------------------------------------------------------------
// `#delay` sums in `initial` blocks
// ---------------------------------------------------------------------------------------------

/// `v` is the identifier `name` and `c` a constant: the shape `v op c` / `v + c` of a counted loop.
pub open spec fn var_const(l: IrExpr, r: IrExpr, var: Seq<char>) -> Option<i64> {
    match (l, r) {
        (IrExpr::Ident(v), IrExpr::Const(n)) => if v@ == var { Some(n) } else { None },
        _ => None,
    }
}

/// Trip count of `for (v = start; v < N | v <= N | v != N; v = v + k)` with constant `start`,
/// `N` and `k > 0`: `ceil((end - start) / k)` where `end` is `N` (`N + 1` for `<=`); for `!=`
/// only when the steps land on `N` exactly (else the loop does not end). `None` for any other
/// shape, a count that is not positive, or one above 10,000,000.
pub open spec fn for_count_spec(init_var: Seq<char>, init_val: IrExpr, cond: IrExpr, step_var: Seq<char>, step_expr: IrExpr) -> Option<usize> {
    if init_var != step_var {
        None
    } else {
        match init_val {
            IrExpr::Const(start) => {
                let bound: Option<(int, bool, bool)> = match cond {
                    IrExpr::Binary { op, left, right } => match var_const(*left, *right, init_var) {
                        Some(n) => if op == IrBinOp::Lt {
                            Some((n as int, false, false))
                        } else if op == IrBinOp::Ne {
                            Some((n as int, false, true))
                        } else if op == IrBinOp::Le {
                            Some((n as int, true, false))
                        } else {
                            None
                        },
                        None => None,
                    },
                    _ => None,
                };
                let step: Option<int> = match step_expr {
                    IrExpr::Binary { op: IrBinOp::Add, left, right } => match var_const(*left, *right, init_var) {
                        Some(k) => Some(k as int),
                        None => None,
                    },
                    _ => None,
                };
                match (bound, step) {
                    (Some((b, inclusive, ne)), Some(k)) => if k <= 0 {
                        None
                    } else if ne && (b - start) % k != 0 {
                        None
                    } else {
                        let end = if inclusive { b + 1 } else { b };
                        let it = (end - start + k - 1) / k;
                        if it <= 0 || it > 10_000_000 { None } else { Some(it as usize) }
                    },
                    _ => None,
                }
            },
            _ => None,
        }
    }
}

fn var_const_exec(l: &IrExpr, r: &IrExpr, var: &String) -> (o: Option<i64>)
    ensures
        o == var_const(*l, *r, var@),
{
    match (l, r) {
        (IrExpr::Ident(v), IrExpr::Const(n)) => if *v == *var { Some(*n) } else { None },
        _ => None,
    }
}

/// Constant trip count of a counted `for` loop (see [`for_count_spec`]).
pub fn static_for_iteration_count(
    init_var: &String,
    init_val: &IrExpr,
    cond: &IrExpr,
    step_var: &String,
    step_expr: &IrExpr,
) -> (r: Option<usize>)
    ensures
        r == for_count_spec(init_var@, *init_val, *cond, step_var@, *step_expr),
{
    if *init_var != *step_var {
        return None;
    }
    let start = match init_val {
        IrExpr::Const(v) => *v,
        _ => {
            return None;
        },
    };
    let (bound, inclusive, ne): (i64, bool, bool) = match cond {
        IrExpr::Binary { op, left, right } => match var_const_exec(left, right, init_var) {
            Some(n) => if *op == IrBinOp::Lt {
                (n, false, false)
            } else if *op == IrBinOp::Ne {
                (n, false, true)
            } else if *op == IrBinOp::Le {
                (n, true, false)
            } else {
                return None;
            },
            None => {
                return None;
            },
        },
        _ => {
            return None;
        },
    };
    let step_inc: i64 = match step_expr {
        IrExpr::Binary { op: IrBinOp::Add, left, right } => match var_const_exec(left, right, init_var) {
            Some(k) => k,
            None => {
                return None;
            },
        },
        _ => {
            return None;
        },
    };
    if step_inc <= 0 {
        return None;
    }
    if ne {
        let gap: i128 = bound as i128 - start as i128;
        match gap.checked_rem_euclid(step_inc as i128) {
            Some(m) => {
                if m != 0 {
                    return None;
                }
            },
            None => {
                return None;
            },
        }
    }
    let end: i128 = if inclusive { bound as i128 + 1 } else { bound as i128 };
    let num: i128 = end - start as i128 + step_inc as i128 - 1;
    let it: i128 = match num.checked_div_euclid(step_inc as i128) {
        Some(q) => q,
        None => 0,
    };
    if it <= 0 || it > 10_000_000 {
        return None;
    }
    Some(it as usize)
}

/// Running `#delay` total after statement `st`, starting from `acc`: a delay adds its value, an
/// `if` both branches, a `case` every arm and the default, a counted `for` its body times the trip
/// count (an uncounted one its body once); other statements add nothing.
pub open spec fn fold_stmt_delay(acc: DelayRational, st: IrStmt) -> DelayRational
    decreases st, 0nat,
{
    match st {
        IrStmt::Delay(d) => add_spec(acc, d),
        IrStmt::IfElse { then_body, else_body, .. } => add_spec(
            add_spec(acc, stmts_delay(then_body@)),
            stmts_delay(else_body@),
        ),
        IrStmt::Case { arms, default, .. } => add_spec(fold_arms_delay(acc, arms@), stmts_delay(default@)),
        IrStmt::For { init_var, init_val, cond, step_var, step_expr, body } => match for_count_spec(
            init_var@,
            init_val,
            cond,
            step_var@,
            step_expr,
        ) {
            Some(n) => add_spec(acc, mul_delay_spec(stmts_delay(body@), n as nat)),
            None => add_spec(acc, stmts_delay(body@)),
        },
        _ => acc,
    }
}

/// `d * n` as [`DelayRational::saturating_mul_u128`] computes it.
pub open spec fn mul_delay_spec(d: DelayRational, n: nat) -> DelayRational {
    if n == 0 || d.num == 0 {
        zero_delay()
    } else {
        new_spec(sat_mul_spec(d.num as nat, n), d.den as nat)
    }
}

/// Running total after each arm body of a `case`, in order.
pub open spec fn fold_arms_delay(acc: DelayRational, arms: Seq<IrCaseArm>) -> DelayRational
    decreases arms, 0nat,
{
    if arms.len() == 0 {
        acc
    } else {
        add_spec(fold_arms_delay(acc, arms.subrange(0, arms.len() - 1)), stmts_delay(arms[arms.len() - 1].body@))
    }
}

/// Running total after each statement of `ss`, in order, from `acc`.
pub open spec fn fold_stmts_delay(acc: DelayRational, ss: Seq<IrStmt>) -> DelayRational
    decreases ss, 0nat,
{
    if ss.len() == 0 {
        acc
    } else {
        fold_stmt_delay(fold_stmts_delay(acc, ss.subrange(0, ss.len() - 1)), ss[ss.len() - 1])
    }
}

/// Sum of every `#delay` literal reachable in `ss` (see [`fold_stmt_delay`]).
pub open spec fn stmts_delay(ss: Seq<IrStmt>) -> DelayRational
    decreases ss, 1nat,
{
    fold_stmts_delay(zero_delay(), ss)
}

/// Sum of the `#delay` literals in `stmts` (see [`stmts_delay`]).
pub fn sum_delay_literals_in_stmts(stmts: &Vec<IrStmt>) -> (r: DelayRational)
    ensures
        r == stmts_delay(stmts@),
    decreases stmts@, 1nat,
{
    let mut s = DelayRational::new(0, 1);
    let mut i: usize = 0;
    while i < stmts.len()
        invariant
            i <= stmts.len(),
            s == fold_stmts_delay(zero_delay(), stmts@.take(i as int)),
        decreases stmts.len() - i,
    {
        assert(stmts@.take(i + 1).subrange(0, i as int) == stmts@.take(i as int));
        assert(decreases_to!(stmts@ => stmts@[i as int]));
        s = fold_stmt_delay_exec(s, &stmts[i]);
        i = i + 1;
    }
    assert(stmts@.take(stmts.len() as int) == stmts@);
    s
}

fn fold_stmt_delay_exec(acc: DelayRational, st: &IrStmt) -> (r: DelayRational)
    ensures
        r == fold_stmt_delay(acc, *st),
    decreases st, 0nat,
{
    match st {
        IrStmt::Delay(d) => acc.add(*d),
        IrStmt::IfElse { then_body, else_body, .. } => {
            let a = acc.add(sum_delay_literals_in_stmts(then_body));
            a.add(sum_delay_literals_in_stmts(else_body))
        },
        IrStmt::Case { arms, default, .. } => {
            let a = fold_arms_delay_exec(acc, arms);
            a.add(sum_delay_literals_in_stmts(default))
        },
        IrStmt::For { init_var, init_val, cond, step_var, step_expr, body } => {
            match static_for_iteration_count(init_var, init_val, cond, step_var, step_expr) {
                Some(n) => acc.add(sum_delay_literals_in_stmts(body).saturating_mul_u128(n as u128)),
                None => acc.add(sum_delay_literals_in_stmts(body)),
            }
        },
        _ => acc,
    }
}

fn fold_arms_delay_exec(acc: DelayRational, arms: &Vec<IrCaseArm>) -> (r: DelayRational)
    ensures
        r == fold_arms_delay(acc, arms@),
    decreases arms@, 0nat,
{
    let mut a = acc;
    let mut i: usize = 0;
    while i < arms.len()
        invariant
            i <= arms.len(),
            a == fold_arms_delay(acc, arms@.take(i as int)),
        decreases arms.len() - i,
    {
        assert(arms@.take(i + 1).subrange(0, i as int) == arms@.take(i as int));
        assert(decreases_to!(arms@ => arms@[i as int]));
        a = a.add(sum_arm_delay(&arms[i]));
        i = i + 1;
    }
    assert(arms@.take(arms.len() as int) == arms@);
    a
}

fn sum_arm_delay(a: &IrCaseArm) -> (r: DelayRational)
    ensures
        r == stmts_delay(a.body@),
    decreases a, 1nat,
{
    sum_delay_literals_in_stmts(&a.body)
}

/// Whether a module defined in `path_of_module` belongs to `source_file`: the two paths have
/// the same components, as `std::path::Path` compares them (see [`path_norm_spec`]). Paths that
/// name one file only after resolving links are not matched here: callers pass canonical paths.
pub fn module_path_matches_source_file(path_of_module: &String, source_file: &str) -> (b: bool)
    ensures
        b == (path_norm_spec(path_of_module@) == path_norm_spec(source_file@)),
{
    same_path(path_of_module.as_str(), source_file)
}

/// Sum of the `#delay` totals of the `initial` blocks of `modules`, one module at a time, for
/// the modules defined in `source_file`.
pub open spec fn file_delay(modules: Seq<IrModule>, source_file: Seq<char>) -> DelayRational
    decreases modules.len(),
{
    if modules.len() == 0 {
        zero_delay()
    } else {
        let acc = file_delay(modules.drop_last(), source_file);
        if path_norm_spec(modules.last().path@) == path_norm_spec(source_file) {
            initials_delay(acc, modules.last().initial_blocks@)
        } else {
            acc
        }
    }
}

/// `acc` plus the `#delay` total of each of `blocks`, in order.
pub open spec fn initials_delay(acc: DelayRational, blocks: Seq<IrInitial>) -> DelayRational
    decreases blocks.len(),
{
    if blocks.len() == 0 {
        acc
    } else {
        add_spec(initials_delay(acc, blocks.drop_last()), stmts_delay(blocks.last().stmts@))
    }
}

/// Ceiling, in whole time units, of the sum of every `#delay` literal in the `initial` blocks of
/// the modules defined in `source_file` (branches all counted, counted loops multiplied).
pub fn sum_initial_delay_literals_for_source_file(project: &IrProject, source_file: &str) -> (r: usize)
    ensures
        ({
            let d = file_delay(project.modules@, source_file@);
            &&& d.den == 0 ==> r == 0
            &&& d.den != 0 ==> r as nat == (if ceil_div_spec(d.num as nat, d.den as nat) > usize::MAX {
                usize::MAX as nat
            } else {
                ceil_div_spec(d.num as nat, d.den as nat)
            })
        }),
{
    let mut total = DelayRational::new(0, 1);
    let mut i: usize = 0;
    while i < project.modules.len()
        invariant
            i <= project.modules.len(),
            total == file_delay(project.modules@.take(i as int), source_file@),
        decreases project.modules.len() - i,
    {
        assert(project.modules@.take(i + 1).drop_last() == project.modules@.take(i as int));
        let m = &project.modules[i];
        if module_path_matches_source_file(&m.path, source_file) {
            let ghost start = total;
            let mut b: usize = 0;
            while b < m.initial_blocks.len()
                invariant
                    b <= m.initial_blocks.len(),
                    total == initials_delay(start, m.initial_blocks@.take(b as int)),
                decreases m.initial_blocks.len() - b,
            {
                assert(m.initial_blocks@.take(b + 1).drop_last() == m.initial_blocks@.take(b as int));
                total = total.add(sum_delay_literals_in_stmts(&m.initial_blocks[b].stmts));
                b = b + 1;
            }
            assert(m.initial_blocks@.take(m.initial_blocks.len() as int) == m.initial_blocks@);
        }
        i = i + 1;
    }
    assert(project.modules@.take(project.modules.len() as int) == project.modules@);
    total.ceil_whole_time_units()
}

/// Width of `name` in `m`: its port's, else its net's (the first of each), else 0.
pub fn ir_net_width_in_module(m: &IrModule, name: &String) -> (w: usize)
    ensures
        (exists|i: int| 0 <= i < m.ports@.len() && (#[trigger] m.ports@[i]).name@ == name@) ==> exists|i: int|
            0 <= i < m.ports@.len() && (#[trigger] m.ports@[i]).name@ == name@ && w == m.ports@[i].width
                && forall|j: int| 0 <= j < i ==> (#[trigger] m.ports@[j]).name@ != name@,
        !(exists|i: int| 0 <= i < m.ports@.len() && (#[trigger] m.ports@[i]).name@ == name@) ==> ((exists|i: int|
            0 <= i < m.nets@.len() && (#[trigger] m.nets@[i]).name@ == name@) ==> exists|i: int|
            0 <= i < m.nets@.len() && (#[trigger] m.nets@[i]).name@ == name@ && w == m.nets@[i].width
                && forall|j: int| 0 <= j < i ==> (#[trigger] m.nets@[j]).name@ != name@),
        !(exists|i: int| 0 <= i < m.ports@.len() && (#[trigger] m.ports@[i]).name@ == name@) && !(exists|i: int|
            0 <= i < m.nets@.len() && (#[trigger] m.nets@[i]).name@ == name@) ==> w == 0,
{
    let mut i: usize = 0;
    while i < m.ports.len()
        invariant
            i <= m.ports.len(),
            forall|j: int| 0 <= j < i ==> (#[trigger] m.ports@[j]).name@ != name@,
        decreases m.ports.len() - i,
    {
        if m.ports[i].name == *name {
            return m.ports[i].width;
        }
        i = i + 1;
    }
    let mut k: usize = 0;
    while k < m.nets.len()
        invariant
            k <= m.nets.len(),
            forall|j: int| 0 <= j < m.ports@.len() ==> (#[trigger] m.ports@[j]).name@ != name@,
            forall|j: int| 0 <= j < k ==> (#[trigger] m.nets@[j]).name@ != name@,
        decreases m.nets.len() - k,
    {
        if m.nets[k].name == *name {
            return m.nets[k].width;
        }
        k = k + 1;
    }
    0
}

// ---------------------------------------------------------------------------------------------
// Positional port connections
// ---------------------------------------------------------------------------------------------

/// Ports of the module named `name` (the last module of that name).
pub open spec fn child_ports(modules: Seq<IrModule>, name: Seq<char>) -> Option<Seq<Port>>
    decreases modules.len(),
{
    if modules.len() == 0 {
        None
    } else if modules.last().name@ == name {
        Some(modules.last().ports@)
    } else {
        child_ports(modules.drop_last(), name)
    }
}

/// What resolution does with one instance.
pub enum ConnAction {
    /// Left as it is (unknown child, or no positional connection).
    Keep,
    /// Positional connections named after the child's ports, in order.
    Name,
    /// Positional and named connections mixed.
    Mixed,
    /// More positional connections than the child has ports.
    TooMany,
}

/// The action for instance `inst` given the modules' ports.
pub open spec fn conn_action(inst: IrInstance, modules: Seq<IrModule>) -> ConnAction {
    match child_ports(modules, inst.module_name@) {
        None => ConnAction::Keep,
        Some(ports) => {
            let has_pos = exists|k: int| 0 <= k < inst.connections@.len() && (#[trigger] inst.connections@[k]).port_name is None;
            let has_named = exists|k: int| 0 <= k < inst.connections@.len() && (#[trigger] inst.connections@[k]).port_name is Some;
            if has_pos && has_named {
                ConnAction::Mixed
            } else if !has_pos {
                ConnAction::Keep
            } else if inst.connections@.len() > ports.len() {
                ConnAction::TooMany
            } else {
                ConnAction::Name
            }
        },
    }
}

/// Whether instance `j` of module `mi` is refused.
pub open spec fn conn_refused(modules: Seq<IrModule>, mi: int, j: int) -> bool {
    let a = conn_action(modules[mi].instances@[j], modules);
    a is Mixed || a is TooMany
}

/// Text of `s` followed by `t`.
fn cat(s: &Vec<char>, t: &str) -> (r: Vec<char>)
    ensures
        r@ == s@ + t@,
{
    concat_chars(s, &chars_of(t))
}

/// The error message for a refused instance `inst` of the module `module_name`: mixed
/// positional and named connections, or more positional ones than the child's `nports` ports.
pub open spec fn conn_error_spec(module_name: Seq<char>, inst: IrInstance, mixed: bool, nports: nat) -> Seq<char> {
    "module `"@ + module_name + "` instance `"@ + inst.instance_name@ + "` of `"@ + inst.module_name@ + if mixed {
        "`: mixed positional and named port connections are not supported"@
    } else {
        "`: too many positional ports ("@ + decimal_spec(inst.connections@.len()) + " > "@ + decimal_spec(nports) + ")"@
    }
}

/// The message of the first refused instance of `modules` (modules in order, then instances).
pub open spec fn first_refusal_message(modules: Seq<IrModule>, e: Seq<char>) -> bool {
    exists|mi: int, j: int|
        #![trigger conn_refused(modules, mi, j)]
        0 <= mi < modules.len() && 0 <= j < modules[mi].instances@.len() && conn_refused(modules, mi, j) && (forall|a: int, i: int|
            ((0 <= a < mi && 0 <= i < modules[a].instances@.len()) || (a == mi && 0 <= i < j)) ==> !#[trigger] conn_refused(
                modules,
                a,
                i,
            )) && e == conn_error_spec(
            modules[mi].name@,
            modules[mi].instances@[j],
            conn_action(modules[mi].instances@[j], modules) is Mixed,
            child_ports(modules, modules[mi].instances@[j].module_name@)->0.len(),
        )
}

/// The error message for a refused instance.
fn conn_error(module_name: &String, inst: &IrInstance, mixed: bool, nports: usize) -> (r: String)
    ensures
        r@ == conn_error_spec(module_name@, *inst, mixed, nports as nat),
{
    let mut t = chars_of("module `");
    t = cat(&t, module_name.as_str());
    t = cat(&t, "` instance `");
    t = cat(&t, inst.instance_name.as_str());
    t = cat(&t, "` of `");
    t = cat(&t, inst.module_name.as_str());
    if mixed {
        t = cat(&t, "`: mixed positional and named port connections are not supported");
    } else {
        t = cat(&t, "`: too many positional ports (");
        t = concat_chars(&t, &u128_to_chars(inst.connections.len() as u128));
        t = cat(&t, " > ");
        t = concat_chars(&t, &u128_to_chars(nports as u128));
        t = cat(&t, ")");
    }
    assert(t@ =~= conn_error_spec(module_name@, *inst, mixed, nports as nat));
    string_from_chars(&t)
}

/// Connections after resolution: positional ones named after the child's ports, in order.
pub open spec fn named_conns(before: Seq<IrPortConn>, after: Seq<IrPortConn>, ports: Seq<Port>) -> bool {
    &&& after.len() == before.len()
    &&& forall|k: int|
        #![trigger after[k]]
        0 <= k < after.len() ==> after[k].expr == before[k].expr && after[k].port_name == (if before[k].port_name
            is None {
            Some(ports[k].name)
        } else {
            before[k].port_name
        })
}

/// `a` is instance `b` after resolution in a design whose modules are `modules`.
pub open spec fn resolved_instance(b: IrInstance, a: IrInstance, modules: Seq<IrModule>) -> bool {
    &&& a.module_name == b.module_name
    &&& a.instance_name == b.instance_name
    &&& a.parameter_assignments == b.parameter_assignments
    &&& if conn_action(b, modules) is Name {
        named_conns(b.connections@, a.connections@, child_ports(modules, b.module_name@).unwrap())
    } else {
        a.connections == b.connections
    }
}

/// `a` is module `b` after resolution in a design whose modules are `modules`.
pub open spec fn resolved_module(b: IrModule, a: IrModule, modules: Seq<IrModule>) -> bool {
    &&& a.name == b.name
    &&& a.path == b.path
    &&& a.ports == b.ports
    &&& a.nets == b.nets
    &&& a.assigns == b.assigns
    &&& a.always_blocks == b.always_blocks
    &&& a.initial_blocks == b.initial_blocks
    &&& a.mem_arrays == b.mem_arrays
    &&& a.resolved_parameters == b.resolved_parameters
    &&& a.instances@.len() == b.instances@.len()
    &&& forall|j: int|
        #![trigger a.instances@[j]]
        0 <= j < b.instances@.len() ==> resolved_instance(b.instances@[j], a.instances@[j], modules)
}

/// Modules with the same names and ports, in the same order, give the same child ports.
proof fn lemma_child_ports_same(a: Seq<IrModule>, b: Seq<IrModule>, name: Seq<char>)
    requires
        a.len() == b.len(),
        forall|i: int| 0 <= i < a.len() ==> (#[trigger] b[i]).name == a[i].name && b[i].ports == a[i].ports,
    ensures
        child_ports(b, name) == child_ports(a, name),
    decreases a.len(),
{
    if a.len() > 0 {
        assert(b.last() == b[b.len() - 1]);
        lemma_child_ports_same(a.drop_last(), b.drop_last(), name);
    }
}

/// Resolving a resolved design again refuses nothing and changes nothing: when `m1` is `m0`
/// resolved without refusal, and `m2` is `m1` resolved, no instance of `m1` is refused and
/// every module of `m2` equals the one of `m1` in every field.
pub proof fn law_resolve_idempotent(m0: Seq<IrModule>, m1: Seq<IrModule>, m2: Seq<IrModule>)
    requires
        m1.len() == m0.len(),
        m2.len() == m1.len(),
        forall|mi: int, j: int|
            0 <= mi < m0.len() && 0 <= j < m0[mi].instances@.len() ==> !#[trigger] conn_refused(m0, mi, j),
        forall|mi: int| 0 <= mi < m0.len() ==> resolved_module(m0[mi], #[trigger] m1[mi], m0),
        forall|mi: int| 0 <= mi < m1.len() ==> resolved_module(m1[mi], #[trigger] m2[mi], m1),
    ensures
        forall|mi: int, j: int|
            0 <= mi < m1.len() && 0 <= j < m1[mi].instances@.len() ==> !#[trigger] conn_refused(m1, mi, j),
        forall|mi: int|
            #![trigger m2[mi]]
            0 <= mi < m1.len() ==> {
                &&& m2[mi].name == m1[mi].name
                &&& m2[mi].path == m1[mi].path
                &&& m2[mi].ports == m1[mi].ports
                &&& m2[mi].nets == m1[mi].nets
                &&& m2[mi].assigns == m1[mi].assigns
                &&& m2[mi].always_blocks == m1[mi].always_blocks
                &&& m2[mi].initial_blocks == m1[mi].initial_blocks
                &&& m2[mi].mem_arrays == m1[mi].mem_arrays
                &&& m2[mi].resolved_parameters == m1[mi].resolved_parameters
                &&& m2[mi].instances@ == m1[mi].instances@
            },
{
    assert forall|i: int| 0 <= i < m0.len() implies (#[trigger] m1[i]).name == m0[i].name && m1[i].ports == m0[i].ports by {
        assert(resolved_module(m0[i], m1[i], m0));
    }
    assert forall|mi: int, j: int| 0 <= mi < m1.len() && 0 <= j < m1[mi].instances@.len() implies conn_action(
        #[trigger] m1[mi].instances@[j],
        m1,
    ) is Keep by {
        assert(resolved_module(m0[mi], m1[mi], m0));
        let b0 = m0[mi].instances@[j];
        let b1 = m1[mi].instances@[j];
        assert(resolved_instance(b0, b1, m0));
        assert(!conn_refused(m0, mi, j));
        lemma_child_ports_same(m0, m1, b0.module_name@);
        if child_ports(m1, b1.module_name@) is Some {
            if conn_action(b0, m0) is Name {
                let ports = child_ports(m0, b0.module_name@).unwrap();
                assert(named_conns(b0.connections@, b1.connections@, ports));
                assert forall|k: int| 0 <= k < b1.connections@.len() implies (#[trigger] b1.connections@[k]).port_name
                    is Some by {
                    assert(b1.connections@[k].port_name == (if b0.connections@[k].port_name is None {
                        Some(ports[k].name)
                    } else {
                        b0.connections@[k].port_name
                    }));
                }
            } else {
                assert(b1.connections == b0.connections);
            }
        }
    }
    assert forall|mi: int, j: int| 0 <= mi < m1.len() && 0 <= j < m1[mi].instances@.len() implies !#[trigger] conn_refused(
        m1,
        mi,
        j,
    ) by {
        assert(conn_action(m1[mi].instances@[j], m1) is Keep);
    }
    assert forall|mi: int| #![trigger m2[mi]] 0 <= mi < m1.len() implies m2[mi].instances@ == m1[mi].instances@ by {
        assert(resolved_module(m1[mi], m2[mi], m1));
        assert forall|j: int| 0 <= j < m1[mi].instances@.len() implies #[trigger] m2[mi].instances@[j]
            == m1[mi].instances@[j] by {
            assert(conn_action(m1[mi].instances@[j], m1) is Keep);
            assert(resolved_instance(m1[mi].instances@[j], m2[mi].instances@[j], m1));
        }
        assert(m2[mi].instances@ =~= m1[mi].instances@);
    }
}

/// `a` is module `b` with some of its instances resolved (as in [`resolved_module`]) and the
/// others unchanged: the state a refusal leaves behind.
pub open spec fn partly_resolved_module(b: IrModule, a: IrModule, modules: Seq<IrModule>) -> bool {
    &&& a.name == b.name
    &&& a.path == b.path
    &&& a.ports == b.ports
    &&& a.nets == b.nets
    &&& a.assigns == b.assigns
    &&& a.always_blocks == b.always_blocks
    &&& a.initial_blocks == b.initial_blocks
    &&& a.mem_arrays == b.mem_arrays
    &&& a.resolved_parameters == b.resolved_parameters
    &&& a.instances@.len() == b.instances@.len()
    &&& forall|j: int|
        #![trigger a.instances@[j]]
        0 <= j < b.instances@.len() ==> a.instances@[j] == b.instances@[j] || resolved_instance(
            b.instances@[j],
            a.instances@[j],
            modules,
        )
}

/// The project state at a refusal of instance `j` of module `mi`: the modules before `mi`
/// resolved, module `mi` resolved before instance `j`, the rest unchanged.
proof fn lemma_refusal_state(orig: Seq<IrModule>, now: Seq<IrModule>, mi: int, j: int)
    requires
        0 <= mi < orig.len() == now.len(),
        forall|q: int| #![trigger now[q]] 0 <= q < mi ==> resolved_module(orig[q], now[q], orig),
        forall|q: int| mi < q < orig.len() ==> #[trigger] now[q] == orig[q],
        now[mi].name == orig[mi].name,
        now[mi].path == orig[mi].path,
        now[mi].ports == orig[mi].ports,
        now[mi].nets == orig[mi].nets,
        now[mi].assigns == orig[mi].assigns,
        now[mi].always_blocks == orig[mi].always_blocks,
        now[mi].initial_blocks == orig[mi].initial_blocks,
        now[mi].mem_arrays == orig[mi].mem_arrays,
        now[mi].resolved_parameters == orig[mi].resolved_parameters,
        now[mi].instances@.len() == orig[mi].instances@.len(),
        forall|i: int| j <= i < orig[mi].instances@.len() ==> #[trigger] now[mi].instances@[i] == orig[mi].instances@[i],
        forall|i: int|
            #![trigger now[mi].instances@[i]]
            0 <= i < j ==> resolved_instance(orig[mi].instances@[i], now[mi].instances@[i], orig),
    ensures
        forall|q: int| #![trigger now[q]] 0 <= q < orig.len() ==> partly_resolved_module(orig[q], now[q], orig),
{
    assert forall|q: int| #![trigger now[q]] 0 <= q < orig.len() implies partly_resolved_module(orig[q], now[q], orig) by {
        if q < mi {
            assert(resolved_module(orig[q], now[q], orig));
        } else if q == mi {
            assert forall|i: int| #![trigger now[q].instances@[i]] 0 <= i < orig[q].instances@.len() implies now[q].instances@[i]
                == orig[q].instances@[i] || resolved_instance(orig[q].instances@[i], now[q].instances@[i], orig) by {
                if i >= j {
                    assert(now[mi].instances@[i] == orig[mi].instances@[i]);
                }
            }
        } else {
            assert(now[q] == orig[q]);
        }
    }
}

fn placeholder_instance() -> (r: IrInstance)
    ensures
        r.module_name@.len() == 0,
        r.parameter_assignments@.len() == 0,
        r.instance_name@.len() == 0,
        r.connections@.len() == 0,
{
    IrInstance { module_name: String::new(), parameter_assignments: Vec::new(), instance_name: String::new(), connections: Vec::new() }
}

/// Names the positional connections of `conns` after `ports`, in order.
fn name_positional(conns: &mut Vec<IrPortConn>, ports: &Vec<Port>)
    requires
        old(conns)@.len() <= ports@.len(),
    ensures
        named_conns(old(conns)@, final(conns)@, ports@),
{
    let ghost before = conns@;
    let mut k: usize = 0;
    while k < conns.len()
        invariant
            conns@.len() == before.len() <= ports@.len(),
            k <= conns@.len(),
            forall|q: int| k <= q < conns@.len() ==> #[trigger] conns@[q] == before[q],
            forall|q: int|
                #![trigger conns@[q]]
                0 <= q < k ==> conns@[q].expr == before[q].expr && conns@[q].port_name == (if before[q].port_name
                    is None {
                    Some(ports@[q].name)
                } else {
                    before[q].port_name
                }),
        decreases conns@.len() - k,
    {
        if conns[k].port_name.is_none() {
            let mut c = IrPortConn { port_name: None, expr: IrExpr::Const(0) };
            conns.set_and_swap(k, &mut c);
            let named = IrPortConn { port_name: Some(ports[k].name.clone()), expr: c.expr };
            conns.set(k, named);
        }
        k = k + 1;
    }
}

fn has_connection_kind(conns: &Vec<IrPortConn>, positional: bool) -> (b: bool)
    ensures
        positional ==> (b <==> exists|k: int| 0 <= k < conns@.len() && (#[trigger] conns@[k]).port_name is None),
        !positional ==> (b <==> exists|k: int| 0 <= k < conns@.len() && (#[trigger] conns@[k]).port_name is Some),
{
    let mut k: usize = 0;
    while k < conns.len()
        invariant
            k <= conns.len(),
            forall|q: int| 0 <= q < k ==> (#[trigger] conns@[q]).port_name is None != positional,
        decreases conns.len() - k,
    {
        if conns[k].port_name.is_none() == positional {
            return true;
        }
        k = k + 1;
    }
    false
}

/// Names positional port connections after the child module's ports, in declaration order.
/// Refuses, with a message naming the module, the instance and the child, an instance that
/// mixes positional and named connections or has more positional connections than the child
/// has ports (the first such instance, modules and instances taken in order; earlier ones stay
/// resolved). Instances of unknown modules are left alone.
pub fn resolve_instance_port_connections(project: &mut IrProject) -> (r: Result<(), String>)
    ensures
        r is Ok <==> forall|mi: int, j: int|
            0 <= mi < old(project).modules@.len() && 0 <= j < old(project).modules@[mi].instances@.len()
                ==> !#[trigger] conn_refused(old(project).modules@, mi, j),
        r matches Err(e) ==> first_refusal_message(old(project).modules@, e@),
        final(project).modules@.len() == old(project).modules@.len(),
        r is Ok ==> forall|mi: int|
            #![trigger final(project).modules@[mi]]
            0 <= mi < old(project).modules@.len() ==> resolved_module(
                old(project).modules@[mi],
                final(project).modules@[mi],
                old(project).modules@,
            ),
        r is Err ==> forall|mi: int|
            #![trigger final(project).modules@[mi]]
            0 <= mi < old(project).modules@.len() ==> partly_resolved_module(
                old(project).modules@[mi],
                final(project).modules@[mi],
                old(project).modules@,
            ),
{
    let ghost orig = project.modules@;
    let n = project.modules.len();
    let mut table: Vec<(String, Vec<Port>)> = Vec::new();
    let mut t: usize = 0;
    while t < n
        invariant
            n == orig.len() == project.modules@.len(),
            project.modules@ == orig,
            t <= n,
            table@.len() == t,
            forall|q: int| 0 <= q < t ==> (#[trigger] table@[q]).0 == orig[q].name && table@[q].1@ == orig[q].ports@,
        decreases n - t,
    {
        table.push((project.modules[t].name.clone(), clone_ports(&project.modules[t].ports)));
        t = t + 1;
    }
    let mut mi: usize = 0;
    while mi < n
        invariant
            orig == old(project).modules@,
            n == orig.len() == project.modules@.len() == table@.len(),
            mi <= n,
            forall|q: int| 0 <= q < n ==> (#[trigger] table@[q]).0 == orig[q].name && table@[q].1@ == orig[q].ports@,
            forall|q: int| mi <= q < n ==> #[trigger] project.modules@[q] == orig[q],
            forall|q: int|
                #![trigger project.modules@[q]]
                0 <= q < mi ==> resolved_module(orig[q], project.modules@[q], orig),
            forall|a: int, j: int| 0 <= a < mi && 0 <= j < orig[a].instances@.len() ==> !#[trigger] conn_refused(orig, a, j),
        decreases n - mi,
    {
        let mut module = placeholder_module();
        project.modules.set_and_swap(mi, &mut module);
        let nj = module.instances.len();
        let mut j: usize = 0;
        while j < nj
            invariant
                orig == old(project).modules@,
                n == orig.len() == project.modules@.len() == table@.len(),
                mi < n,
                forall|q: int| 0 <= q < n ==> (#[trigger] table@[q]).0 == orig[q].name && table@[q].1@ == orig[q].ports@,
                forall|q: int| mi < q < n ==> #[trigger] project.modules@[q] == orig[q],
                forall|q: int|
                    #![trigger project.modules@[q]]
                    0 <= q < mi ==> resolved_module(orig[q], project.modules@[q], orig),
                forall|a: int, i: int| 0 <= a < mi && 0 <= i < orig[a].instances@.len() ==> !#[trigger] conn_refused(orig, a, i),
                module.name == orig[mi as int].name,
                module.path == orig[mi as int].path,
                module.ports == orig[mi as int].ports,
                module.nets == orig[mi as int].nets,
                module.assigns == orig[mi as int].assigns,
                module.always_blocks == orig[mi as int].always_blocks,
                module.initial_blocks == orig[mi as int].initial_blocks,
                module.mem_arrays == orig[mi as int].mem_arrays,
                module.resolved_parameters == orig[mi as int].resolved_parameters,
                nj == module.instances@.len() == orig[mi as int].instances@.len(),
                j <= nj,
                forall|i: int| j <= i < nj ==> #[trigger] module.instances@[i] == orig[mi as int].instances@[i],
                forall|i: int| 0 <= i < j ==> !#[trigger] conn_refused(orig, mi as int, i),
                forall|i: int|
                    #![trigger module.instances@[i]]
                    0 <= i < j ==> resolved_instance(orig[mi as int].instances@[i], module.instances@[i], orig),
            decreases nj - j,
        {
            let mut inst = placeholder_instance();
            module.instances.set_and_swap(j, &mut inst);
            let ghost bi = inst;
            assert(bi == orig[mi as int].instances@[j as int]);
            let mut child: Option<usize> = None;
            let mut c = n;
            assert(orig.take(n as int) == orig);
            while c > 0
                invariant_except_break
                    child is None,
                    child_ports(orig, inst.module_name@) == child_ports(orig.take(c as int), inst.module_name@),
                invariant
                    c <= n == table@.len() == orig.len(),
                    forall|q: int| 0 <= q < n ==> (#[trigger] table@[q]).0 == orig[q].name && table@[q].1@ == orig[q].ports@,
                ensures
                    child is None ==> child_ports(orig, inst.module_name@) is None,
                    child matches Some(x) ==> x < n && child_ports(orig, inst.module_name@) == Some(orig[x as int].ports@),
                decreases c,
            {
                assert(orig.take(c as int).drop_last() == orig.take(c - 1));
                assert(orig.take(c as int).last() == orig[c - 1]);
                if table[c - 1].0 == inst.module_name {
                    assert(orig[c - 1].name@ == inst.module_name@);
                    assert(child_ports(orig.take(c as int), inst.module_name@) == Some(orig[c - 1].ports@));
                    child = Some(c - 1);
                    break;
                }
                c = c - 1;
                proof {
                    if c == 0 {
                        assert(orig.take(0) == Seq::<IrModule>::empty());
                    }
                }
            }
            match child {
                None => {
                    assert(conn_action(bi, orig) is Keep);
                },
                Some(x) => {
                    let has_pos = has_connection_kind(&inst.connections, true);
                    let has_named = has_connection_kind(&inst.connections, false);
                    assert(!has_pos ==> conn_action(bi, orig) is Keep);
                    assert(has_pos && !has_named && inst.connections@.len() <= orig[x as int].ports@.len() ==> conn_action(bi, orig) is Name);
                    if has_pos && has_named {
                        let msg = conn_error(&module.name, &inst, true, table[x].1.len());
                        module.instances.set_and_swap(j, &mut inst);
                        project.modules.set_and_swap(mi, &mut module);
                        proof {
                            assert(project.modules@[mi as int].instances@[j as int] == orig[mi as int].instances@[j as int]);
                            lemma_refusal_state(orig, project.modules@, mi as int, j as int);
                            assert(conn_refused(orig, mi as int, j as int));
                            assert(conn_action(bi, orig) is Mixed);
                            assert(first_refusal_message(orig, msg@));
                        }
                        return Err(msg);
                    }
                    if has_pos {
                        if inst.connections.len() > table[x].1.len() {
                            let msg = conn_error(&module.name, &inst, false, table[x].1.len());
                            module.instances.set_and_swap(j, &mut inst);
                            project.modules.set_and_swap(mi, &mut module);
                            proof {
                                assert(project.modules@[mi as int].instances@[j as int] == orig[mi as int].instances@[j as int]);
                                lemma_refusal_state(orig, project.modules@, mi as int, j as int);
                                assert(conn_refused(orig, mi as int, j as int));
                                assert(!(conn_action(bi, orig) is Mixed));
                                assert(first_refusal_message(orig, msg@));
                            }
                            return Err(msg);
                        }
                        name_positional(&mut inst.connections, &table[x].1);
                    }
                },
            }
            module.instances.set_and_swap(j, &mut inst);
            j = j + 1;
        }
        project.modules.set_and_swap(mi, &mut module);
        mi = mi + 1;
    }
    Ok(())
}


/// A count of declared modules (a trigger).
pub open spec fn declared_count(n: int) -> bool {
    true
}

/// Each of `pre` is the lowering of the module of `ms` at its place.
pub open spec fn lowered_all(pre: Seq<IrModule>, ms: Seq<CstModule>) -> bool {
    &&& pre.len() == ms.len()
    &&& forall|i: int| 0 <= i < pre.len() ==> lowered_from(#[trigger] pre[i], ms[i])
}

/// `out` is `pre` after [`elaborate_parameterized_modules`] with the templates `csts`: the
/// modules of `pre` keep their place and all but their instances, each instance is elaborated
/// under its module's parameters, and the modules after them are specialised templates, one
/// for each instance pointed at a specialisation.
pub open spec fn elaborated_from(out: Seq<IrModule>, pre: Seq<IrModule>, csts: Seq<CstModule>) -> bool {
    &&& out.len() >= pre.len()
    &&& forall|mi: int|
        #![trigger out[mi]]
        0 <= mi < pre.len() ==> {
            &&& same_but_instances(out[mi], pre[mi])
            &&& out[mi].instances@.len() == pre[mi].instances@.len()
            &&& forall|j: int|
                #![trigger out[mi].instances@[j]]
                0 <= j < pre[mi].instances@.len() ==> elaborated_instance(
                    pre[mi].instances@[j],
                    out[mi].instances@[j],
                    pre[mi].resolved_parameters@,
                    csts,
                )
        }
    &&& forall|k: int| #![trigger out[k]] pre.len() <= k < out.len() ==> from_template(out[k], csts)
    &&& forall|mi: int, j: int|
        0 <= mi < pre.len() && 0 <= j < pre[mi].instances@.len() && specialised_here(
            pre[mi].instances@[j],
            pre[mi].resolved_parameters@,
            csts,
        ) ==> added_module_named(out, pre.len() as int, (#[trigger] out[mi].instances@[j]).module_name@)
}

/// `r` is the project of one file named `path` with the text `content`: the text's tokens
/// parse to modules `ms` with the diagnostics `r.diagnostics` ([`parse_outcome`]), each module
/// of `ms` is lowered ([`lowered_from`]), and the lowered modules are then elaborated
/// ([`elaborated_from`]).
pub open spec fn file_ir(r: IrProject, path: Seq<char>, content: Seq<char>) -> bool {
    exists|tokens: Seq<Token>, ms: Seq<CstModule>, pre: Seq<IrModule>|
        #![trigger lexed(tokens, content), lowered_all(pre, ms)]
        lexed(tokens, content) && parse_outcome(tokens, path, ms, r.diagnostics@) && lowered_all(pre, ms)
            && elaborated_from(r.modules@, pre, ms)
}

/// Lexes, parses and lowers one file (named `path`), then elaborates its parameterised instances.
/// Every module of the result is defined in `path`; the modules declared in the text come
/// first, each named after a `module` keyword of the text, then the specialisations.
pub fn build_ir_for_file(path: &str, content: &str) -> (r: IrProject)
    ensures
        forall|i: int| 0 <= i < r.modules@.len() ==> (#[trigger] r.modules@[i]).path@ == path@,
        exists|tokens: Seq<Token>, n: int|
            #![trigger lexed(tokens, content@), declared_count(n)]
            lexed(tokens, content@) && declared_count(n) && 0 <= n <= r.modules@.len() && (forall|i: int|
                0 <= i < n ==> declared_module_name(tokens, (#[trigger] r.modules@[i]).name@)) && (first_module_name(
                tokens,
            ) matches Some(nm) ==> n > 0 && r.modules@[0].name@ == nm),
        file_ir(r, path@, content@),
{
    let file = SourceFile::new(path, content);
    let tokens = lex(&file);
    let (cst, diagnostics) = parse_cst(&file, &tokens);
    let mut modules: Vec<IrModule> = Vec::new();
    let mut i: usize = 0;
    while i < cst.modules.len()
        invariant
            i <= cst.modules.len(),
            modules@.len() == i,
            forall|q: int| 0 <= q < cst.modules@.len() ==> (#[trigger] cst.modules@[q]).path == file.path,
            forall|q: int| 0 <= q < i ==> (#[trigger] modules@[q]).path == file.path,
            forall|q: int| 0 <= q < i ==> (#[trigger] modules@[q]).name == cst.modules@[q].name,
            forall|q: int| 0 <= q < i ==> lowered_from(#[trigger] modules@[q], cst.modules@[q]),
        decreases cst.modules.len() - i,
    {
        modules.push(ir_module_from_cst(&cst.modules[i]));
        i = i + 1;
    }
    let mut project = IrProject { modules, diagnostics };
    let ghost before = project.modules@;
    elaborate_parameterized_modules(&mut project, &cst.modules);
    proof {
        let n = cst.modules@.len() as int;
        assert(declared_count(n));
        assert forall|i: int| 0 <= i < n implies declared_module_name(tokens@, (#[trigger] project.modules@[i]).name@) by {
            assert(project.modules@[i].name == before[i].name);
        }
    }
    proof {
        assert(lowered_all(before, cst.modules@));
        assert(elaborated_from(project.modules@, before, cst.modules@));
        assert(file_ir(project, path@, content@));
    }
    proof {
        reveal(from_template);
        assert forall|q: int| 0 <= q < project.modules@.len() implies (#[trigger] project.modules@[q]).path@ == path@ by {
            if q < before.len() {
                assert(before[q].path == file.path);
            } else {
                assert(from_template(project.modules@[q], cst.modules@));
            }
        }
    }
    project
}

/// Where the text `content` declares a module, `modules` holds one of that name defined in `path`.
pub open spec fn first_module_kept(modules: Seq<IrModule>, path: Seq<char>, content: Seq<char>) -> bool {
    exists|tokens: Seq<Token>|
        #[trigger] lexed(tokens, content) && (first_module_name(tokens) matches Some(nm) ==> exists|m: int|
            0 <= m < modules.len() && (#[trigger] modules[m]).name@ == nm && modules[m].path@ == path)
}

/// [`first_module_kept`] survives a change of `a` to `b` that keeps the name and path of each
/// module of `a` at its place.
pub proof fn lemma_first_module_kept_grows(a: Seq<IrModule>, b: Seq<IrModule>, path: Seq<char>, content: Seq<char>)
    requires
        first_module_kept(a, path, content),
        b.len() >= a.len(),
        forall|i: int| 0 <= i < a.len() ==> (#[trigger] b[i]).name == a[i].name && b[i].path == a[i].path,
    ensures
        first_module_kept(b, path, content),
{
    let tokens = choose|tokens: Seq<Token>|
        #[trigger] lexed(tokens, content) && (first_module_name(tokens) matches Some(nm) ==> exists|m: int|
            0 <= m < a.len() && (#[trigger] a[m]).name@ == nm && a[m].path@ == path);
    if let Some(nm) = first_module_name(tokens) {
        let m = choose|m: int| 0 <= m < a.len() && (#[trigger] a[m]).name@ == nm && a[m].path@ == path;
        assert(b[m].name == a[m].name);
    }
    assert(lexed(tokens, content));
}

/// `path` is the path of one of `files`.
pub open spec fn is_file_path(files: Seq<(String, String)>, path: Seq<char>) -> bool {
    exists|i: int| 0 <= i < files.len() && (#[trigger] files[i]).0@ == path
}

/// Lexes, parses and lowers several files (path, text) into one project, in order, then
/// elaborates the parameterised instances once over all of them, so that an instance may name a
/// module of another file. Every module of the result is defined in one of the files.
pub fn build_ir_for_sources(files: &Vec<(String, String)>) -> (r: IrProject)
    ensures
        forall|m: int| 0 <= m < r.modules@.len() ==> is_file_path(files@, (#[trigger] r.modules@[m]).path@),
        forall|f: int|
            0 <= f < files@.len() ==> first_module_kept(r.modules@, (#[trigger] files@[f]).0@, files@[f].1@),
{
    let mut modules: Vec<IrModule> = Vec::new();
    let mut diagnostics: Vec<Diagnostic> = Vec::new();
    let mut csts: Vec<CstModule> = Vec::new();
    let mut f: usize = 0;
    while f < files.len()
        invariant
            f <= files.len(),
            forall|m: int| 0 <= m < modules@.len() ==> is_file_path(files@, (#[trigger] modules@[m]).path@),
            forall|c: int| 0 <= c < csts@.len() ==> is_file_path(files@, (#[trigger] csts@[c]).path@),
            forall|g: int| 0 <= g < f ==> first_module_kept(modules@, (#[trigger] files@[g]).0@, files@[g].1@),
        decreases files.len() - f,
    {
        let file = SourceFile::new(files[f].0.as_str(), files[f].1.as_str());
        let tokens = lex(&file);
        let (cst, mut diags) = parse_cst(&file, &tokens);
        diagnostics.append(&mut diags);
        let mut cms = cst.modules;
        let ghost start = modules@.len();
        let ghost first = first_module_name(tokens@);
        let mut i: usize = 0;
        while i < cms.len()
            invariant
                i <= cms.len(),
                f < files.len(),
                file.path@ == files@[f as int].0@,
                start <= modules@.len(),
                modules@.len() == start + i,
                forall|q: int| 0 <= q < cms@.len() ==> (#[trigger] cms@[q]).path == file.path,
                forall|m: int| 0 <= m < modules@.len() ==> is_file_path(files@, (#[trigger] modules@[m]).path@),
                forall|g: int| 0 <= g < f ==> first_module_kept(modules@, (#[trigger] files@[g]).0@, files@[g].1@),
                first matches Some(nm) ==> cms@.len() > 0 && cms@[0].name@ == nm,
                i > 0 ==> modules@[start as int].name == cms@[0].name && modules@[start as int].path == cms@[0].path,
            decreases cms.len() - i,
        {
            let ghost bm = modules@;
            modules.push(ir_module_from_cst(&cms[i]));
            proof {
                assert(is_file_path(files@, file.path@));
                assert forall|m: int| 0 <= m < modules@.len() implies is_file_path(files@, (#[trigger] modules@[m]).path@) by {
                    if m < bm.len() {
                        assert(modules@[m] == bm[m]);
                    }
                }
                assert forall|g: int| 0 <= g < f implies first_module_kept(
                    modules@,
                    (#[trigger] files@[g]).0@,
                    files@[g].1@,
                ) by {
                    lemma_first_module_kept_grows(bm, modules@, files@[g].0@, files@[g].1@);
                }
                if i > 0 {
                    assert(modules@[start as int] == bm[start as int]);
                }
            }
            i = i + 1;
        }
        proof {
            assert(lexed(tokens@, files@[f as int].1@));
            if let Some(nm) = first {
                assert(modules@[start as int].name@ == nm && modules@[start as int].path@ == files@[f as int].0@);
            }
            assert(first_module_kept(modules@, files@[f as int].0@, files@[f as int].1@));
        }
        let ghost bc = csts@;
        let ghost added = cms@;
        csts.append(&mut cms);
        proof {
            assert(is_file_path(files@, file.path@));
            assert forall|c: int| 0 <= c < csts@.len() implies is_file_path(files@, (#[trigger] csts@[c]).path@) by {
                if c < bc.len() {
                    assert(csts@[c] == bc[c]);
                } else {
                    assert(csts@[c] == added[c - bc.len()]);
                }
            }
        }
        f = f + 1;
    }
    let mut project = IrProject { modules, diagnostics };
    let ghost before = project.modules@;
    elaborate_parameterized_modules(&mut project, &csts);
    proof {
        assert forall|g: int| 0 <= g < files@.len() implies first_module_kept(
            project.modules@,
            (#[trigger] files@[g]).0@,
            files@[g].1@,
        ) by {
            lemma_first_module_kept_grows(before, project.modules@, files@[g].0@, files@[g].1@);
        }
    }
    proof {
        reveal(from_template);
        assert forall|m: int| 0 <= m < project.modules@.len() implies is_file_path(
            files@,
            (#[trigger] project.modules@[m]).path@,
        ) by {
            if m < before.len() {
                assert(project.modules@[m].path == before[m].path);
            } else {
                assert(from_template(project.modules@[m], csts@));
                let (base, ps) = choose|base: Seq<char>, ps: Seq<(Seq<char>, i64)>|
                    #[trigger] specialized_name_spec(base, ps) == project.modules@[m].name@ && (template_of(csts@, base) matches Some(t)
                        && 0 <= t < csts@.len() && project.modules@[m].path == csts@[t].path);
                let t = template_of(csts@, base)->0;
                assert(is_file_path(files@, csts@[t].path@));
            }
        }
    }
    project
}
} // verus!
