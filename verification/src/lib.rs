//! Verified core of a small IEEE 1364 Verilog front end and simulator: lexer, parser, IR lowering,
//! parameter elaboration, an event-driven simulator that writes VCD, and the `` `timescale`` /
//! `#delay` arithmetic that sizes a run.
use vstd::prelude::*;

pub mod arith;
pub mod strutil;
pub mod delay_rational;
pub mod timescale_util;
pub mod lexer;
pub mod parser;
pub mod expr_const;
pub mod ir;
pub mod codegen;
pub mod simulator;
pub mod vcd;
pub mod pipeline;
pub mod viewer;

pub use crate::lexer::{Token, TokenKind};
pub use crate::delay_rational::DelayRational;
pub use crate::arith::{arith_shr_i64, sign_extend_i64};
pub use crate::ir::{
    build_ir_for_file, elaborate_parameterized_modules, resolve_instance_port_connections,
    sum_initial_delay_literals_for_source_file, IrAlways, IrAssign, IrBinOp, IrCaseArm, IrEdgeKind, IrExpr, IrInitial,
    IrInstance, IrMemArray, IrModule, IrNet, IrPortConn, IrProject, IrSensEntry, IrSensitivity, IrStmt, IrUnaryOp,
};
pub use crate::timescale_util::{
    clock_half_period_fine_ticks, div_ceil, num_cycles_from_initial_delay_sum_fine, timescale_token_to_fs,
    unit_per_precision_ratio,
};
pub use crate::vcd::{generate_vcd, SimConfig, VcdRunMeta};
pub use crate::viewer::{
    path_under_project, SessionId, VcdOpenResponse, VcdQueryResponse, VcdScopeNode, VcdTransition, VcdVarNode,
};
pub use crate::pipeline::{
    num_cycles_from_initial_delay_sum, run_csverilog_pipeline, scan_timescale_sources, sum_initial_delays_for_source_files,
    CsVerilogOptions, SourceText, TimescaleScan,
};
use crate::lexer::lex;
use crate::parser::{declared_module_name, first_kind_from, first_module_name, headers_of, parse_outcome, parse_tokens, CstModule};
use crate::lexer::lexed;
use crate::strutil::{decimal_spec, string_from_chars, u128_to_chars};

verus! {

/// One source file: its path (as given) and its text.
#[derive(Debug, Clone)]
pub struct SourceFile {
    pub path: String,
    pub content: String,
}

impl SourceFile {
    /// A source file named `path` holding `content`.
    pub fn new(path: &str, content: &str) -> (r: Self)
        ensures
            r.path@ == path@,
            r.content@ == content@,
    {
        SourceFile { path: path.to_owned(), content: content.to_owned() }
    }
}

/// How serious a diagnostic is.
#[derive(Debug, Clone, Copy, PartialEq, Eq, Structural)]
pub enum Severity {
    Error,
    Warning,
}

/// A message attached to a position (1-based line and column) of a source file.
#[derive(Debug, Clone)]
pub struct Diagnostic {
    pub message: String,
    pub severity: Severity,
    pub line: usize,
    pub column: usize,
    pub path: String,
}

/// Some diagnostic of `ds` is an error.
pub open spec fn has_error(ds: Seq<Diagnostic>) -> bool {
    exists|i: int| 0 <= i < ds.len() && (#[trigger] ds[i]).severity == Severity::Error
}

/// The word for a severity in a diagnostic line.
pub open spec fn severity_word(s: Severity) -> Seq<char> {
    match s {
        Severity::Error => "error"@,
        Severity::Warning => "warning"@,
    }
}

/// A diagnostic as one line: `path:line:column: severity: message`.
pub open spec fn diagnostic_line_spec(d: Diagnostic) -> Seq<char> {
    d.path@ + ":"@ + decimal_spec(d.line as nat) + ":"@ + decimal_spec(d.column as nat) + ": "@ + severity_word(
        d.severity,
    ) + ": "@ + d.message@
}

impl Diagnostic {
    /// The diagnostic as one line (see [`diagnostic_line_spec`]).
    pub fn format_line(&self) -> (s: String)
        ensures
            s@ == diagnostic_line_spec(*self),
    {
        let mut s = self.path.clone();
        s.append(":");
        let line = string_from_chars(&u128_to_chars(self.line as u128));
        s.append(line.as_str());
        s.append(":");
        let col = string_from_chars(&u128_to_chars(self.column as u128));
        s.append(col.as_str());
        s.append(": ");
        match self.severity {
            Severity::Error => s.append("error"),
            Severity::Warning => s.append("warning"),
        }
        s.append(": ");
        s.append(self.message.as_str());
        s
    }
}

/// A module port: optional direction (`input` / `output` / `inout`), name and packed width.
#[derive(Debug, Clone)]
pub struct Port {
    pub direction: Option<String>,
    pub name: String,
    pub width: usize,
}

/// Header-level view of a parsed module.
#[derive(Debug, Clone)]
pub struct Module {
    pub name: String,
    pub ports: Vec<Port>,
    pub path: String,
}

/// Modules and diagnostics of one parsed file.
#[derive(Debug, Clone)]
pub struct ParseResult {
    pub modules: Vec<Module>,
    pub diagnostics: Vec<Diagnostic>,
}

/// Lexes and parses `src` (the text of the file `path`): its modules' headers and the
/// diagnostics ([`parse_outcome`]: names, header ports, and an error where the first `module`
/// keyword has no name). Every module reported is defined in `path`.
pub fn parse_file(path: &str, src: &str) -> (r: ParseResult)
    ensures
        exists|tokens: Seq<Token>, ms: Seq<CstModule>|
            #![trigger lexed(tokens, src@), parse_outcome(tokens, path@, ms, r.diagnostics@)]
            lexed(tokens, src@) && parse_outcome(tokens, path@, ms, r.diagnostics@) && headers_of(r.modules@, ms),
        forall|i: int| 0 <= i < r.modules@.len() ==> (#[trigger] r.modules@[i]).path@ == path@,
        exists|tokens: Seq<Token>|
            #[trigger] lexed(tokens, src@) && (forall|i: int|
                0 <= i < r.modules@.len() ==> declared_module_name(tokens, (#[trigger] r.modules@[i]).name@)) && (
            first_kind_from(tokens, 0, TokenKind::Module) is None ==> r.modules@.len() == 0) && (first_module_name(
                tokens,
            ) matches Some(nm) ==> r.modules@.len() > 0 && r.modules@[0].name@ == nm),
{
    let file = SourceFile::new(path, src);
    let tokens = lex(&file);
    parse_tokens(&file, &tokens)
}

} // verus!
