use verilog_core::parse_file;

#[test]
fn parses_module_name_and_ports_with_directions_and_ranges() {
    let src = r#"
module foo #(parameter WIDTH = 16) (
    input [WIDTH-1:0] data_in,
    output logic ready,
    inout [3:0] bus
);
endmodule
"#;

    let res = parse_file("foo.v", src);
    assert!(res.diagnostics.is_empty(), "unexpected diagnostics: {:?}", res.diagnostics);

    assert_eq!(res.modules.len(), 1);
    let m = &res.modules[0];
    assert_eq!(m.name, "foo");
    assert_eq!(m.ports.len(), 3);

    assert_eq!(m.ports[0].direction.as_deref(), Some("input"));
    assert_eq!(m.ports[0].name, "data_in");

    assert_eq!(m.ports[1].direction.as_deref(), Some("output"));
    assert_eq!(m.ports[1].name, "ready");

    assert_eq!(m.ports[2].direction.as_deref(), Some("inout"));
    assert_eq!(m.ports[2].name, "bus");
}

#[test]
fn ansi_ports_repeat_direction_and_width_for_following_names() {
    let src = "module t #(parameter W = 8) (output [W-1:0] a, b, input c); endmodule";
    let res = parse_file("t.v", src);
    assert!(res.diagnostics.is_empty());
    let m = &res.modules[0];
    assert_eq!(m.ports.len(), 3);
    assert_eq!(m.ports[0].width, 8);
    assert_eq!(m.ports[1].direction.as_deref(), Some("output"));
    assert_eq!(m.ports[1].width, 8);
    assert_eq!(m.ports[2].width, 1);
    assert_eq!(m.path, "t.v");
}

#[test]
fn missing_module_name_is_reported_with_line_and_column() {
    let res = parse_file("bad.v", "\nmodule ;\nendmodule\n");
    assert_eq!(res.modules.len(), 0);
    assert_eq!(res.diagnostics.len(), 1);
    assert_eq!(res.diagnostics[0].message, "expected module name");
    assert_eq!(res.diagnostics[0].line, 2);
    assert_eq!(res.diagnostics[0].column, 8);
    assert_eq!(res.diagnostics[0].path, "bad.v");
}

#[test]
fn first_module_after_stray_tokens_is_kept() {
    let src = "wire stray;\nmodule first #(parameter W = 4) (input a);\nendmodule\nmodule second;\nendmodule\n";
    let r = parse_file("stray.v", src);
    assert_eq!(r.modules.len(), 2);
    assert_eq!(r.modules[0].name, "first");
    assert_eq!(r.modules[1].name, "second");
    assert_eq!(r.modules[0].path, "stray.v");
}

#[test]
fn text_without_module_keyword_gives_no_modules() {
    let r = parse_file("none.v", "wire a;\nassign a = 1;\n");
    assert_eq!(r.modules.len(), 0);
}

#[test]
fn ansi_ports_repeat_direction_and_width() {
    let r = parse_file("m.v", "module m(output [6:0] a, b, input c); endmodule");
    assert!(r.diagnostics.is_empty());
    assert_eq!(r.modules.len(), 1);
    let ports: Vec<(Option<String>, String, usize)> =
        r.modules[0].ports.iter().map(|p| (p.direction.clone(), p.name.clone(), p.width)).collect();
    assert_eq!(
        ports,
        vec![
            (Some("output".to_string()), "a".to_string(), 7),
            (Some("output".to_string()), "b".to_string(), 7),
            (Some("input".to_string()), "c".to_string(), 1),
        ]
    );
}

#[test]
fn header_ports_inherit_direction_and_width() {
    let res = parse_file("m.v", "module m(output [6:0] a, b, input c); endmodule");
    assert!(res.diagnostics.is_empty(), "{:?}", res.diagnostics);
    let m = &res.modules[0];
    let got: Vec<(Option<&str>, &str, usize)> =
        m.ports.iter().map(|p| (p.direction.as_deref(), p.name.as_str(), p.width)).collect();
    assert_eq!(got, vec![(Some("output"), "a", 7), (Some("output"), "b", 7), (Some("input"), "c", 1)]);
}

#[test]
fn module_keyword_without_name_is_an_error() {
    let res = parse_file("bad.v", "module ; endmodule");
    assert!(res.modules.is_empty());
    assert!(!res.diagnostics.is_empty());
}
