use verilog_core::ir::{
    build_ir_for_sources, ir_try_eval_const_index_expr, module_path_matches_source_file, resolve_instance_port_connections,
};
use verilog_core::{build_ir_for_file, IrBinOp, IrEdgeKind, IrExpr, IrSensitivity};

#[test]
fn const_index_fold_adds_literals() {
    let e = IrExpr::Binary {
        op: IrBinOp::Add,
        left: Box::new(IrExpr::Const(2)),
        right: Box::new(IrExpr::Const(1)),
    };
    assert_eq!(ir_try_eval_const_index_expr(&e), Some(3));
}

#[test]
fn const_index_rejects_signal_ident() {
    assert_eq!(ir_try_eval_const_index_expr(&IrExpr::Ident("i".into())), None);
}

#[test]
fn const_index_nested_add_matches_generate_i_plus_one_shape() {
    let e = IrExpr::Binary {
        op: IrBinOp::Add,
        left: Box::new(IrExpr::Const(7)),
        right: Box::new(IrExpr::Const(1)),
    };
    assert_eq!(ir_try_eval_const_index_expr(&e), Some(8));
}

#[test]
fn always_hash_fractional_delay_blocking_assign() {
    let src = r#"
module tb;
  reg CLK;
  always #0.5 CLK = ~CLK;
endmodule
"#;
    let ir = build_ir_for_file("TestBench6.v", src);
    assert!(ir.diagnostics.is_empty(), "unexpected diagnostics: {:?}", ir.diagnostics);
}

#[test]
fn initial_blocking_assign_with_unsized_decimal_literal() {
    let src = r#"
module CD;
  reg [3:0] Counter;
  initial Counter = 'd0;
endmodule
"#;
    let ir = build_ir_for_file("Clock_Div.v", src);
    assert!(ir.diagnostics.is_empty(), "unexpected diagnostics: {:?}", ir.diagnostics);
}

#[test]
fn always_hash_integer_delay() {
    let src = r#"
module m;
  reg x;
  always #10 x = ~x;
endmodule
"#;
    let ir = build_ir_for_file("m.v", src);
    assert!(ir.diagnostics.is_empty(), "{:?}", ir.diagnostics);
}

#[test]
fn traffic_light_controller_style_always_at_star_and_localparam() {
    let src = r#"
module TLC(
  input Clock,
  input Reset,
  input E, NL, EL, W,
  output [6:0] TimerMSD, TimerLSD,
  output reg [6:0] ETL, NLTL, ELTL, WTL
  );

localparam flowA = 2'b00;
localparam flowB = 2'b01;
localparam flowC = 2'b10;
localparam red = 7'b0101111;

reg [1:0] flow, next_flow;

always @* begin
    case(flow)
    flowA: if(E) next_flow <= flowB; else next_flow <= flowA;
    flowB: next_flow <= flowC;
    flowC: next_flow <= flowA;
    endcase
end

always @* begin
    case(flow)
    flowA: begin ETL <= red; NLTL <= red; end
    default: begin ETL <= red; NLTL <= red; end
    endcase
end

B4to7SEG conv(.Blank(1'b0), .N(4'b0), .MSD(TimerMSD), .LSD(TimerLSD));

endmodule
"#;

    let ir = build_ir_for_file("TLC.v", src);
    assert!(ir.diagnostics.is_empty(), "unexpected diagnostics: {:?}", ir.diagnostics);
}

#[test]
fn localparams_fold_into_constants_and_widths() {
    let src = "module w; localparam N = 4; reg [N-1:0] r; wire [7:0] q[0:1]; assign q[1] = N + 1; endmodule";
    let ir = build_ir_for_file("w.v", src);
    let m = &ir.modules[0];
    assert_eq!(m.resolved_parameters, vec![("N".to_string(), 4)]);
    let widths: Vec<(String, usize)> = m.nets.iter().map(|n| (n.name.clone(), n.width)).collect();
    assert_eq!(widths, vec![("r".to_string(), 4), ("q__0".to_string(), 8), ("q__1".to_string(), 8)]);
    assert_eq!(m.mem_arrays.len(), 1);
    assert_eq!((m.mem_arrays[0].lo, m.mem_arrays[0].hi, m.mem_arrays[0].elem_width), (0, 1, 8));
    assert_eq!(m.assigns.len(), 1);
    assert_eq!(m.assigns[0].lhs, "q__1");
    match &m.assigns[0].rhs {
        IrExpr::Binary { op: IrBinOp::Add, left, right } => {
            assert_eq!(**left, IrExpr::Const(4));
            assert_eq!(**right, IrExpr::Const(1));
        }
        other => panic!("unexpected {:?}", other),
    }
}

#[test]
fn parameter_override_creates_specialised_module() {
    let src = "module leaf #(parameter W = 1) (input [W-1:0] a); endmodule\nmodule top; wire [3:0] x; leaf #(.W(4)) u(.a(x)); endmodule";
    let ir = build_ir_for_file("h.v", src);
    assert_eq!(ir.modules.len(), 3);
    let top = &ir.modules[1];
    assert_eq!(top.instances[0].module_name, "leaf__p_W_4");
    assert!(top.instances[0].parameter_assignments.is_empty());
    assert_eq!(ir.modules[2].name, "leaf__p_W_4");
    // Header port widths are the ones parsed with the default parameter values.
    assert_eq!(ir.modules[2].ports[0].width, 1);
    assert!(ir.modules.iter().all(|m| m.path == "h.v"));
}

#[test]
fn generate_for_expands_one_instance_per_iteration() {
    let src = "module top; wire [3:0] s; genvar i; generate for (i = 0; i < 3; i = i + 1) begin : g leaf u(.o(s[i])); end endgenerate endmodule";
    let ir = build_ir_for_file("g.v", src);
    let names: Vec<String> = ir.modules[0].instances.iter().map(|i| i.instance_name.clone()).collect();
    assert_eq!(names, vec!["u__0", "u__1", "u__2"]);
}

#[test]
fn sensitivity_list_keeps_edges_and_signals_in_order() {
    let src = "module m(input clk, input rst, input a); reg q;\n  always @(posedge clk or negedge rst, a) q <= a;\nendmodule\n";
    let p = build_ir_for_file("s.v", src);
    let ab = &p.modules[0].always_blocks[0];
    match &ab.sensitivity {
        IrSensitivity::EdgeList(es) => {
            let got: Vec<(IrEdgeKind, String)> = es.iter().map(|e| (e.edge, e.signal.clone())).collect();
            assert_eq!(
                got,
                vec![
                    (IrEdgeKind::Posedge, "clk".to_string()),
                    (IrEdgeKind::Negedge, "rst".to_string()),
                    (IrEdgeKind::Level, "a".to_string()),
                ]
            );
        },
        IrSensitivity::Star => panic!("expected an edge list"),
    }
}

#[test]
fn star_sensitivity_forms() {
    let src = "module m; reg a, b;\n  always @* b = a;\n  always @(*) b = a;\nendmodule\n";
    let p = build_ir_for_file("s.v", src);
    assert!(matches!(p.modules[0].always_blocks[0].sensitivity, IrSensitivity::Star));
    assert!(matches!(p.modules[0].always_blocks[1].sensitivity, IrSensitivity::Star));
}

#[test]
fn sources_elaborate_across_files() {
    let files = vec![
        ("top.v".to_string(), "module top; wire [3:0] x; leaf #(.W(4)) u(.a(x)); endmodule\n".to_string()),
        ("leaf.v".to_string(), "module leaf #(parameter W = 1) (input [W-1:0] a); endmodule\n".to_string()),
    ];
    let ir = build_ir_for_sources(&files);
    assert_eq!(ir.modules.len(), 3);
    assert_eq!(ir.modules[0].instances[0].module_name, "leaf__p_W_4");
    assert_eq!(ir.modules[2].name, "leaf__p_W_4");
    assert_eq!(ir.modules[2].path, "leaf.v");
    assert_eq!(ir.modules[0].path, "top.v");
}

#[test]
fn module_path_matching_compares_path_components() {
    assert!(module_path_matches_source_file(&"src//a/./b.v".to_string(), "src/a/b.v"));
    assert!(module_path_matches_source_file(&"/tmp/x.v/".to_string(), "/tmp/x.v"));
    assert!(!module_path_matches_source_file(&"./b.v".to_string(), "b.v"));
    assert!(!module_path_matches_source_file(&"/b.v".to_string(), "b.v"));
    assert!(!module_path_matches_source_file(&"a/b.v".to_string(), "a/c.v"));
}

#[test]
fn generate_loop_instances_are_named_by_iteration() {
    let src = "module leaf(input a); endmodule\nmodule top; wire [2:0] w; genvar i; generate for (i = 0; i < 3; i = i + 1) begin : g leaf u (.a(w[i])); end endgenerate endmodule\n";
    let ir = build_ir_for_file("g.v", src);
    let top = ir.modules.iter().find(|m| m.name == "top").expect("top");
    let names: Vec<&str> = top.instances.iter().map(|i| i.instance_name.as_str()).collect();
    assert_eq!(names, vec!["u__0", "u__1", "u__2"]);
}

#[test]
fn resolving_twice_changes_nothing() {
    let src = "module leaf(input a, output y); assign y = a; endmodule\nmodule top; wire p, q; leaf u (p, q); endmodule\n";
    let mut ir = build_ir_for_file("r.v", src);
    assert!(resolve_instance_port_connections(&mut ir).is_ok());
    let once: Vec<String> = ir.modules.iter().flat_map(|m| m.instances.iter())
        .flat_map(|i| i.connections.iter()).map(|c| format!("{:?}", c)).collect();
    assert!(resolve_instance_port_connections(&mut ir).is_ok());
    let twice: Vec<String> = ir.modules.iter().flat_map(|m| m.instances.iter())
        .flat_map(|i| i.connections.iter()).map(|c| format!("{:?}", c)).collect();
    assert_eq!(once, twice);
    assert!(once.iter().all(|c| !c.contains("port_name: None")));
}

fn counted(cond: IrExpr, step: i64) -> Option<usize> {
    let i = "i".to_string();
    let step_expr = IrExpr::Binary { op: IrBinOp::Add, left: Box::new(IrExpr::Ident(i.clone())), right: Box::new(IrExpr::Const(step)) };
    verilog_core::ir::static_for_iteration_count(&i, &IrExpr::Const(0), &cond, &i, &step_expr)
}

fn cmp(op: IrBinOp, bound: i64) -> IrExpr {
    IrExpr::Binary { op, left: Box::new(IrExpr::Ident("i".to_string())), right: Box::new(IrExpr::Const(bound)) }
}

#[test]
fn static_for_counts_match_the_loop() {
    assert_eq!(counted(cmp(IrBinOp::Lt, 700), 1), Some(700));
    assert_eq!(counted(cmp(IrBinOp::Le, 3), 1), Some(4));
    assert_eq!(counted(cmp(IrBinOp::Lt, 10), 3), Some(4));
    assert_eq!(counted(cmp(IrBinOp::Ne, 6), 2), Some(3));
}

#[test]
fn static_for_not_equal_that_is_never_reached_has_no_count() {
    assert_eq!(counted(cmp(IrBinOp::Ne, 5), 2), None);
}
