use verilog_core::pipeline::compile_failure_message;
use verilog_core::{run_csverilog_pipeline, CsVerilogOptions, Diagnostic, Severity, SourceText};

fn src(path: &str, content: &str) -> SourceText {
    SourceText { path: path.to_string(), content: content.to_string(), canonical: None }
}

fn diag(path: &str, line: usize, column: usize, severity: Severity, message: &str) -> Diagnostic {
    Diagnostic { message: message.to_string(), severity, line, column, path: path.to_string() }
}

fn run(sources: &[SourceText], options: CsVerilogOptions) -> Result<String, String> {
    run_csverilog_pipeline(
        &sources.to_vec(),
        Some("out.vcd".to_string()),
        &"csverilog out".to_string(),
        Some("/work".to_string()),
        &options,
    )
}

const COUNTER: &str = r#"
`timescale 1ns/1ns
module top;
  reg a;
  initial begin
    a = 0;
    #10 a = 1;
  end
endmodule
"#;

#[test]
fn format_line_of_a_warning() {
    let d = diag("m.v", 12, 3, Severity::Warning, "unused");
    assert_eq!(d.format_line(), "m.v:12:3: warning: unused");
}

#[test]
fn compile_failure_message_lists_errors_only() {
    let ds = vec![
        diag("a.v", 1, 2, Severity::Error, "bad token"),
        diag("a.v", 2, 1, Severity::Warning, "ignored"),
        diag("b.v", 3, 4, Severity::Error, "missing ;  "),
    ];
    let m = compile_failure_message(&ds).expect("errors present");
    assert_eq!(m, "Verilog compile failed:\na.v:1:2: error: bad token\nb.v:3:4: error: missing ;");
}

#[test]
fn compile_failure_message_none_without_errors() {
    let ds = vec![diag("a.v", 1, 1, Severity::Warning, "w")];
    assert_eq!(compile_failure_message(&ds), None);
}

#[test]
fn pipeline_refuses_no_sources() {
    assert_eq!(run(&[], CsVerilogOptions::default()), Err("no Verilog source files".to_string()));
}

#[test]
fn pipeline_refuses_files_without_modules() {
    let r = run(&[src("empty.v", "// nothing here\n")], CsVerilogOptions::default());
    assert_eq!(r, Err("no modules found in input files".to_string()));
}

#[test]
fn pipeline_refuses_output_path_that_is_not_text() {
    let r = run_csverilog_pipeline(
        &vec![src("top.v", COUNTER)],
        None,
        &"csverilog out".to_string(),
        None,
        &CsVerilogOptions::default(),
    );
    assert_eq!(r, Err("output path is not valid UTF-8".to_string()));
}

#[test]
fn pipeline_refuses_conflicting_timescales() {
    let a = "`timescale 1ns/1ps\nmodule top; child c(); endmodule\n";
    let b = "`timescale 1us/1ns\nmodule child; endmodule\n";
    let r = run(&[src("a.v", a), src("b.v", b)], CsVerilogOptions::default());
    let e = r.expect_err("conflict");
    assert!(e.starts_with("conflicting `` `timescale`` directives"), "{e}");
}

#[test]
fn pipeline_evaluates_arithmetic_shift_in_initial() {
    let s = "module top; reg [3:0] a; initial a = 4'b1000 >>> 1; endmodule\n";
    let vcd = run(&[src("s.v", s)], CsVerilogOptions::default()).expect("vcd");
    assert!(vcd.contains("b100 "), "{vcd}");
}

#[test]
fn pipeline_writes_vcd_with_run_settings() {
    let mut options = CsVerilogOptions::default();
    options.num_cycles = Some(7);
    let vcd = run(&[src("top.v", COUNTER)], options).expect("vcd");
    assert!(vcd.contains("top_module: top"), "{vcd}");
    assert!(vcd.contains("simulation: num_cycles=7 "), "{vcd}");
    assert!(vcd.contains("`timescale (unit / VCD precision): 1ns/1ns"), "{vcd}");
    assert!(vcd.contains("initial #delay literal sum (selected source files, time-unit steps): 10"), "{vcd}");
    assert!(vcd.contains("top_source_file: top.v"), "{vcd}");
    assert!(vcd.contains("output_vcd_path: out.vcd"), "{vcd}");
}

#[test]
fn pipeline_explicit_timescale_is_trimmed() {
    let mut options = CsVerilogOptions::default();
    options.timescale = Some("  10ns ".to_string());
    options.num_cycles = Some(2);
    let vcd = run(&[src("top.v", COUNTER)], options).expect("vcd");
    assert!(vcd.contains("`timescale (unit / VCD precision): 10ns/10ns"), "{vcd}");
}

#[test]
fn pipeline_reports_compile_errors() {
    let r = run(&[src("bad.v", "module ; endmodule\n")], CsVerilogOptions::default());
    let e = r.expect_err("compile error");
    assert!(e.starts_with("Verilog compile failed:\nbad.v:"), "{e}");
}

#[test]
fn pipeline_refuses_mixed_port_connections() {
    let s = "module child(input a, input b); endmodule\nmodule top; wire x, y; child u(x, .b(y)); endmodule\n";
    let r = run(&[src("m.v", s)], CsVerilogOptions::default());
    assert_eq!(
        r,
        Err("module `top` instance `u` of `child`: mixed positional and named port connections are not supported".to_string())
    );
}

#[test]
fn pipeline_refuses_too_many_positional_ports() {
    let s = "module child(input a, input b); endmodule\nmodule top; wire x, y, z; child u(x, y, z); endmodule\n";
    let r = run(&[src("m.v", s)], CsVerilogOptions::default());
    assert_eq!(r, Err("module `top` instance `u` of `child`: too many positional ports (3 > 2)".to_string()));
}

#[test]
fn pipeline_writes_first_drive_of_an_undriven_signal() {
    let s = "module tb; reg sel; initial begin #10 sel = 0; end endmodule\n";
    let vcd = run(&[src("tb.v", s)], CsVerilogOptions::default()).expect("vcd");
    let at10 = vcd.find("\n#10\n").expect("change at 10");
    let after = &vcd[at10 + 5..];
    let line = after.lines().next().expect("a change line");
    assert!(line.starts_with('0'), "{vcd}");
    assert!(vcd.contains("x"), "{vcd}");
}
