use verilog_core::codegen::{mask_to_width, vcd_ident, SimTables};
use verilog_core::simulator::{ScopeNode, Simulator};
use verilog_core::{
    build_ir_for_file, generate_vcd, DelayRational, IrAlways, IrAssign, IrBinOp, IrEdgeKind, IrExpr, IrInitial,
    IrInstance, IrModule, IrNet, IrPortConn, IrProject, IrSensEntry, IrSensitivity, IrStmt, IrUnaryOp, Port,
    SimConfig,
};

fn make_project(modules: Vec<IrModule>) -> IrProject {
    IrProject { modules, diagnostics: vec![] }
}

fn port(dir: &str, name: &str) -> Port {
    Port { direction: Some(dir.into()), name: name.into(), width: 1 }
}

fn port_w(dir: &str, name: &str, width: usize) -> Port {
    Port { direction: Some(dir.into()), name: name.into(), width }
}

fn module(name: &str, path: &str) -> IrModule {
    IrModule {
        name: name.into(),
        path: path.into(),
        ports: vec![],
        nets: vec![],
        assigns: vec![],
        instances: vec![],
        always_blocks: vec![],
        initial_blocks: vec![],
        mem_arrays: vec![],
        resolved_parameters: vec![],
    }
}

fn config(top: &str, num_cycles: usize) -> SimConfig {
    let mut c = SimConfig::default();
    c.top_module = top.into();
    c.num_cycles = num_cycles;
    c
}

#[test]
fn vcd_ident_generation() {
    assert_eq!(vcd_ident(0), "!");
    assert_eq!(vcd_ident(1), "\"");
    assert_eq!(vcd_ident(93), "~");
    assert_eq!(vcd_ident(94), "!!");
}

#[test]
fn simple_combinational_vcd() {
    let mut top = module("top", "test.v");
    top.ports = vec![port("input", "a"), port("output", "y")];
    top.assigns = vec![IrAssign { lhs: "y".into(), rhs: IrExpr::Ident("a".into()) }];
    let proj = make_project(vec![top]);
    let mut cfg = config("top", 2);
    cfg.timescale = "1ns".into();
    cfg.clock_half_period = 5;
    let vcd = generate_vcd(&proj, &cfg).unwrap();
    assert!(vcd.contains("$scope module top $end"));
    assert!(vcd.contains("$var"));
    assert!(vcd.contains("#0"));
    assert!(vcd.contains("$enddefinitions $end"));
    assert!(vcd.contains("$dumpvars"));
}

#[test]
fn combinational_always_explicit_level_list_dumpvars_not_x() {
    let src = r#"
module top(input wire a, input wire b, output reg y);
  always @(a or b) y = a & b;
endmodule
"#;
    let proj = build_ir_for_file("t.v", src);
    let cfg = config("top", 2);
    let vcd = generate_vcd(&proj, &cfg).unwrap();
    let d0 = vcd.find("$dumpvars").unwrap();
    let d1 = vcd[d0..].find("$end").unwrap() + d0;
    let dump = &vcd[d0..d1];
    assert!(!dump.contains("bx"), "level-sensitivity combinational always must run before #0 dump: {}", dump);
}

#[test]
fn sequential_counter_vcd() {
    let mut top = module("counter", "test.v");
    top.ports = vec![port_w("output", "count", 4)];
    top.nets = vec![
        IrNet { name: "clk".into(), width: 1 },
        IrNet { name: "rst".into(), width: 1 },
        IrNet { name: "count".into(), width: 4 },
    ];
    top.always_blocks = vec![
        IrAlways {
            sensitivity: IrSensitivity::Star,
            stmts: vec![
                IrStmt::Delay(DelayRational::from_int(5)),
                IrStmt::BlockingAssign {
                    lhs: "clk".into(),
                    rhs: IrExpr::Unary { op: IrUnaryOp::Not, operand: Box::new(IrExpr::Ident("clk".into())) },
                },
            ],
        },
        IrAlways {
            sensitivity: IrSensitivity::EdgeList(vec![IrSensEntry { edge: IrEdgeKind::Posedge, signal: "clk".into() }]),
            stmts: vec![IrStmt::IfElse {
                cond: IrExpr::Ident("rst".into()),
                then_body: vec![IrStmt::NonBlockingAssign { lhs: "count".into(), rhs: IrExpr::Const(0) }],
                else_body: vec![IrStmt::NonBlockingAssign {
                    lhs: "count".into(),
                    rhs: IrExpr::Binary {
                        op: IrBinOp::Add,
                        left: Box::new(IrExpr::Ident("count".into())),
                        right: Box::new(IrExpr::Const(1)),
                    },
                }],
            }],
        },
    ];
    top.initial_blocks = vec![IrInitial {
        stmts: vec![
            IrStmt::BlockingAssign { lhs: "clk".into(), rhs: IrExpr::Const(0) },
            IrStmt::BlockingAssign { lhs: "rst".into(), rhs: IrExpr::Const(0) },
        ],
    }];
    let proj = make_project(vec![top]);
    let mut cfg = config("counter", 5);
    cfg.timescale = "1ns".into();
    cfg.clock_half_period = 5;
    let vcd = generate_vcd(&proj, &cfg).unwrap();
    assert!(vcd.contains("$var reg"));
    assert!(vcd.contains("count"));
    assert!(vcd.contains("#5"));
    assert!(vcd.contains("#10"));
}

#[test]
fn missing_top_module_returns_error() {
    let proj = make_project(vec![]);
    let cfg = config("nonexistent", 20);
    let result = generate_vcd(&proj, &cfg);
    assert!(result.is_err());
    assert!(result.unwrap_err().contains("not found"));
}

#[test]
fn multibit_signal_vcd() {
    let mut top = module("top", "test.v");
    top.ports = vec![port_w("input", "clk", 1), port_w("output", "data", 8)];
    top.assigns = vec![IrAssign { lhs: "data".into(), rhs: IrExpr::Const(0xAB) }];
    let proj = make_project(vec![top]);
    let vcd = generate_vcd(&proj, &config("top", 1)).unwrap();
    assert!(vcd.contains("[7:0]"), "should have bit range annotation");
    assert!(vcd.contains("b10101011") || vcd.contains("b0"), "should use binary format for multi-bit");
}

#[test]
fn initial_block_with_delay() {
    let mut top = module("tb", "test.v");
    top.nets = vec![IrNet { name: "sel".into(), width: 1 }];
    top.initial_blocks = vec![IrInitial {
        stmts: vec![
            IrStmt::BlockingAssign { lhs: "sel".into(), rhs: IrExpr::Const(0) },
            IrStmt::Delay(DelayRational::from_int(10)),
            IrStmt::BlockingAssign { lhs: "sel".into(), rhs: IrExpr::Const(1) },
        ],
    }];
    let proj = make_project(vec![top]);
    let mut cfg = config("tb", 5);
    cfg.timescale = "1ns".into();
    cfg.clock_half_period = 5;
    let vcd = generate_vcd(&proj, &cfg).unwrap();
    assert!(vcd.contains("0!"), "sel should be 0 initially");
    assert!(vcd.contains("#10"), "should have timestamp 10");
    assert!(vcd.contains("1!"), "sel should become 1 at time 10");
}

#[test]
fn x_initialization_for_undriven() {
    let mut top = module("top", "test.v");
    top.ports = vec![port("input", "a"), port("output", "y")];
    top.nets = vec![IrNet { name: "internal".into(), width: 1 }];
    let proj = make_project(vec![top]);
    let vcd = generate_vcd(&proj, &config("top", 1)).unwrap();
    assert!(vcd.contains("x"), "undriven signals should show x");
}

#[test]
fn nested_scopes_in_vcd() {
    let mut child = module("inverter", "inv.v");
    child.ports = vec![port("input", "a"), port("output", "y")];
    child.assigns = vec![IrAssign {
        lhs: "y".into(),
        rhs: IrExpr::Unary { op: IrUnaryOp::Not, operand: Box::new(IrExpr::Ident("a".into())) },
    }];
    let mut top = module("top", "top.v");
    top.ports = vec![port("input", "in1"), port("output", "out1")];
    top.instances = vec![IrInstance {
        module_name: "inverter".into(),
        parameter_assignments: vec![],
        instance_name: "u1".into(),
        connections: vec![
            IrPortConn { port_name: Some("a".into()), expr: IrExpr::Ident("in1".into()) },
            IrPortConn { port_name: Some("y".into()), expr: IrExpr::Ident("out1".into()) },
        ],
    }];
    let proj = make_project(vec![top, child]);
    let vcd = generate_vcd(&proj, &config("top", 1)).unwrap();
    assert!(vcd.contains("$scope module top $end"), "should have top scope");
    assert!(vcd.contains("$scope module u1 $end"), "should have child scope");
    let upscope_count = vcd.matches("$upscope $end").count();
    assert!(upscope_count >= 2, "should have matching upscopes: got {}", upscope_count);
}

#[test]
fn real_date_in_header() {
    let mut top = module("top", "test.v");
    top.ports = vec![port("input", "a")];
    let proj = make_project(vec![top]);
    let vcd = generate_vcd(&proj, &config("top", 1)).unwrap();
    assert!(vcd.contains("$date"), "should have date section");
    assert!(!vcd.contains("Simulation output"), "should not use placeholder date in test");
}

#[test]
fn dumpvars_after_timestamp_zero() {
    let mut top = module("top", "test.v");
    top.ports = vec![port("input", "a")];
    let proj = make_project(vec![top]);
    let vcd = generate_vcd(&proj, &config("top", 1)).unwrap();
    let t0_pos = vcd.find("#0").unwrap();
    let dv_pos = vcd.find("$dumpvars").unwrap();
    assert!(dv_pos > t0_pos, "$dumpvars should appear after #0 (t0={}, dv={})", t0_pos, dv_pos);
}

#[test]
fn mask_to_width_works() {
    assert_eq!(mask_to_width(0xFF, 4), 0xF);
    assert_eq!(mask_to_width(0xFF, 8), 0xFF);
    assert_eq!(mask_to_width(-1, 1), 1);
    assert_eq!(mask_to_width(0x1FF, 8), 0xFF);
}

#[test]
fn eval_binary_ops() {
    let top = module("t", "t.v");
    let sim = Simulator {
        signals: vec![],
        prev_signals: vec![],
        signal_order: vec![],
        vcd_ids: vec![],
        tables: SimTables { widths: vec![], mem_bounds: vec![], mem_elem_width: vec![] },
        assigns: vec![],
        always_blocks: vec![],
        always_delay_procs: vec![],
        initial_events: vec![],
        initial_time_horizon_fs: 0,
        driven: vec![],
        scope_tree: ScopeNode { name: "t".into(), signals: vec![], children: vec![] },
        top: &top,
        last_sim_time_fs: 0,
    };
    assert_eq!(
        sim.eval_expr(&IrExpr::Binary {
            op: IrBinOp::Add,
            left: Box::new(IrExpr::Const(3)),
            right: Box::new(IrExpr::Const(4)),
        }),
        7
    );
    assert_eq!(
        sim.eval_expr(&IrExpr::Binary {
            op: IrBinOp::Eq,
            left: Box::new(IrExpr::Const(5)),
            right: Box::new(IrExpr::Const(5)),
        }),
        1
    );
    assert_eq!(
        sim.eval_expr(&IrExpr::Ternary {
            cond: Box::new(IrExpr::Const(1)),
            then_expr: Box::new(IrExpr::Const(10)),
            else_expr: Box::new(IrExpr::Const(20)),
        }),
        10
    );
}

#[test]
fn counter_vcd_counts_up_on_each_rising_clock_edge() {
    let src = r#"
module counter;
  reg clk;
  reg [3:0] count;
  initial begin
    clk = 0;
    count = 0;
  end
  always #5 clk = ~clk;
  always @(posedge clk) count <= count + 1;
endmodule
"#;
    let proj = build_ir_for_file("counter.v", src);
    assert!(proj.diagnostics.is_empty(), "{:?}", proj.diagnostics);
    let vcd = generate_vcd(&proj, &config("counter", 2)).unwrap();
    assert!(vcd.contains("$var reg 4 \" count [3:0] $end"), "{}", vcd);
    assert!(vcd.contains("#5\n1!\nb1 \"\n"), "{}", vcd);
    assert!(vcd.contains("#15\n1!\nb10 \"\n"), "{}", vcd);
}

#[test]
fn vcd_header_is_written_in_order() {
    let mut top = module("top", "test.v");
    top.ports = vec![port("input", "a")];
    let proj = make_project(vec![top]);
    let mut cfg = config("top", 1);
    cfg.timescale = "1ns".into();
    cfg.timescale_precision = "1ps".into();
    let vcd = generate_vcd(&proj, &cfg).unwrap();
    assert!(vcd.starts_with("$date\n  "));
    assert!(vcd.contains("$end\n$version\n  CircuitScope VCD Generator (verilog-core 0.1.0)\n$end\n$timescale\n\t1 ps\n$end\n"));
    assert!(vcd.contains("  top_source_file: test.v\n"));
    assert!(vcd.contains("$scope module top $end\n$var wire 1 ! a $end\n$upscope $end\n$enddefinitions $end\n#0\n$dumpvars\nx!\n$end\n"), "{}", vcd);
}

#[test]
fn nested_instance_signals_get_instance_prefixed_display_names() {
    let mut top = module("top", "top.v");
    top.nets = vec![IrNet { name: "mem__3".into(), width: 1 }];
    let proj = make_project(vec![top]);
    let vcd = generate_vcd(&proj, &config("top", 1)).unwrap();
    assert!(vcd.contains("$var wire 1 ! mem_3 $end"), "{}", vcd);
}

#[test]
fn other_source_files_are_sorted_and_deduplicated() {
    let mut top = module("top", "top.v");
    top.ports = vec![port("input", "a")];
    let proj = make_project(vec![top, module("b", "z.v"), module("c", "b.v"), module("d", "z.v"), module("e", "top.v")]);
    let vcd = generate_vcd(&proj, &config("top", 1)).unwrap();
    assert!(vcd.contains("$comment\n  other_source_files:\n    b.v\n    z.v\n$end\n"), "{}", vcd);
    assert!(vcd.contains("  ir_module_count: 5\n"), "{}", vcd);
}
