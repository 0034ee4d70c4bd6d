use verilog_core::pipeline::timescale_pair_from_source_preamble;
use verilog_core::{
    build_ir_for_file, clock_half_period_fine_ticks, num_cycles_from_initial_delay_sum,
    num_cycles_from_initial_delay_sum_fine, scan_timescale_sources, sum_initial_delay_literals_for_source_file,
    sum_initial_delays_for_source_files, unit_per_precision_ratio, TimescaleScan,
};

fn sources(files: &[(&str, &str)]) -> Vec<(String, String)> {
    files.iter().map(|(p, c)| (p.to_string(), c.to_string())).collect()
}

#[test]
fn sum_delays_constant_for_loop_multiplies_body() {
    let src = r#"
`timescale 1s / 100ms
module tb;
  integer i;
  initial begin
    for (i = 0; i < 700; i = i + 1) #1;
  end
endmodule
"#;
    let path = "/tmp/for_delays_tb.v";
    let ir = build_ir_for_file(path, src);
    let sum = sum_initial_delay_literals_for_source_file(&ir, path);
    assert_eq!(sum, 700, "700 iterations of #1");
    assert_eq!(num_cycles_from_initial_delay_sum(sum, 5), 70);
}

#[test]
fn sum_delays_in_initial_linear_block() {
    let src = r#"
`timescale 1ns/1ps
module tb;
  reg x;
  initial begin
    #10 x = 0;
    #90 x = 1;
  end
endmodule
"#;
    let path = "/tmp/DoesNotMatterForSum.v";
    let ir = build_ir_for_file(path, src);
    let sum = sum_initial_delay_literals_for_source_file(&ir, path);
    assert_eq!(sum, 100, "10 + 90 in one initial");
    let k = unit_per_precision_ratio("1ns", "1ps");
    let h = clock_half_period_fine_ticks(5, k, false, "1ns");
    let n = num_cycles_from_initial_delay_sum_fine(sum, k, h);
    assert_eq!(n, 10, "100ns delay vs 10ns clock period (2x5ns half in ps ticks)");
}

#[test]
fn sum_zero_yields_default_cycles_rule() {
    assert_eq!(num_cycles_from_initial_delay_sum(0, 5), 100);
}

#[test]
fn delay_sum_is_timescale_files_only_tb_delays_ignored_without_preamble_timescale() {
    let dut = r#"
`timescale 1ns/1ps
module dut(input wire a, output wire y);
  assign y = a;
endmodule
"#;
    let tb = r#"
module tb;
  reg a;
  wire y;
  dut d(.a(a), .y(y));
  initial begin
    #10 a = 0;
    #90 a = 1;
  end
endmodule
"#;
    let dut_path = "/tmp/csverilog_dut_fallback.v";
    let tb_path = "/tmp/csverilog_tb_fallback.v";
    let mut ir = build_ir_for_file(dut_path, dut);
    ir.modules.extend(build_ir_for_file(tb_path, tb).modules);
    let sum_dut_file = sum_initial_delays_for_source_files(&ir, &vec![dut_path.to_string()]);
    assert_eq!(sum_dut_file, 0);
    let k = unit_per_precision_ratio("1ns", "1ps");
    let h = clock_half_period_fine_ticks(5, k, false, "1ns");
    assert_eq!(num_cycles_from_initial_delay_sum_fine(sum_dut_file, k, h), 100);

    let sum_both_with_timescale =
        sum_initial_delays_for_source_files(&ir, &vec![dut_path.to_string(), tb_path.to_string()]);
    assert_eq!(sum_both_with_timescale, 100);
}

#[test]
fn scan_finds_first_timescale_in_order() {
    let files = sources(&[("a.v", "module a; endmodule\n"), ("b.v", "  `timescale 10us / 1ns\nmodule b; endmodule\n")]);
    let ts = scan_timescale_sources(&files).unwrap();
    assert_eq!(ts.time_unit, "10us");
    assert_eq!(ts.time_precision, "1ns");
    assert_eq!(ts.declaration_path.as_deref(), Some("b.v"));
    assert_eq!(ts.timescale_source_files, vec!["b.v".to_string()]);
}

#[test]
fn scan_skips_line_comment_after_timescale_token() {
    let files = sources(&[("f.v", "`timescale 1ps/1fs  // tricky\n")]);
    let ts = scan_timescale_sources(&files).unwrap();
    assert_eq!(ts.time_unit, "1ps");
    assert_eq!(ts.time_precision, "1fs");
}

#[test]
fn scan_defaults_to_1ns_slash_1ns() {
    let files = sources(&[("m.v", "module m; endmodule\n")]);
    let ts = scan_timescale_sources(&files).unwrap();
    assert!(ts.declaration_path.is_none());
    assert_eq!(ts.time_unit, "1ns");
    assert_eq!(ts.time_precision, "1ns");
    assert!(ts.timescale_source_files.is_empty());
}

#[test]
fn timescale_after_module_is_ignored_use_default() {
    let files = sources(&[("e.v", "module early; endmodule\n`timescale 1us/1ns\n")]);
    let ts = scan_timescale_sources(&files).unwrap();
    assert!(ts.declaration_path.is_none());
    assert_eq!(ts.time_unit, "1ns");
    assert_eq!(ts.time_precision, "1ns");
    assert!(ts.timescale_source_files.is_empty());
}

#[test]
fn conflicting_preamble_timescales_are_error() {
    let files = sources(&[
        ("rtl.v", "`timescale 1ns/1ps\nmodule dut; endmodule\n"),
        ("tb.v", "`timescale 1s/100ms\nmodule tb; endmodule\n"),
    ]);
    let err = scan_timescale_sources(&files).err().unwrap();
    assert!(err.contains("conflicting"), "expected conflict message, got: {err}");
    assert_eq!(
        err,
        "conflicting `` `timescale`` directives (must match project-wide):\n`timescale 1ns/1ps` in rtl.v\n`timescale 1s/100ms` in tb.v"
    );
}

#[test]
fn same_timescale_in_two_files_ok_and_both_listed_for_delays() {
    let files = sources(&[
        ("a.v", "`timescale 1ns / 1ps\nmodule dut; endmodule\n"),
        ("b.v", "`timescale 1ns/1ps\nmodule tb; endmodule\n"),
    ]);
    let ts = scan_timescale_sources(&files).unwrap();
    assert_eq!(ts.time_unit, "1ns");
    assert_eq!(ts.time_precision, "1ps");
    let mut got = ts.timescale_source_files.clone();
    got.sort();
    assert_eq!(got, vec!["a.v".to_string(), "b.v".to_string()]);
}

#[test]
fn single_unit_timescale_duplicates_as_precision() {
    let files = sources(&[("f.v", "`timescale 1ns\n")]);
    let ts = scan_timescale_sources(&files).unwrap();
    assert_eq!(ts.time_unit, "1ns");
    assert_eq!(ts.time_precision, "1ns");
}

#[test]
fn preamble_scan_handles_crlf_and_module_keyword_lines() {
    assert_eq!(
        timescale_pair_from_source_preamble("// header\r\n`timescale 1ms / 10us\r\nmodule m;\r\n"),
        Some(("1ms".to_string(), "10us".to_string()))
    );
    assert_eq!(timescale_pair_from_source_preamble("module\n`timescale 1ns/1ps\n"), None);
    assert_eq!(timescale_pair_from_source_preamble("`timescale\n`timescale 2ns/1ns\n"), Some(("2ns".to_string(), "1ns".to_string())));
    assert_eq!(timescale_pair_from_source_preamble("`timescale / 1ns\n"), None);
    assert_eq!(timescale_pair_from_source_preamble("`timescale 5ns /  \n"), Some(("5ns".to_string(), "5ns".to_string())));
}

#[test]
fn default_timescale_is_one_nanosecond() {
    let ts = TimescaleScan::default_timescale();
    assert_eq!((ts.time_unit.as_str(), ts.time_precision.as_str()), ("1ns", "1ns"));
    assert!(ts.declaration_path.is_none() && ts.timescale_source_files.is_empty());
}
