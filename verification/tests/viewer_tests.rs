use verilog_core::viewer::{
    bit01, bit_at_lsb_index, bits_for_signal, decimate_transitions_slice, hierarchy_tree, HierItem, HierScope, edge_kind_from_name, edge_matches, edge_matches_lsb_bit,
    edge_points, find_edge_time, normalize_bus_binary_msb, parse_bin_u128, query_transitions, query_window, vcd_find_edge_answer, vcd_open_response, vcd_query_answer, QuerySession, SignalTrace,
    resample_transitions_for_viewport, shell_binary_is_zsh, signal_window, sort_transitions, thin_transitions,
    timescale_unit_label, value_at_or_before, EdgeKind, VcdTimeUnit,
};
use verilog_core::{path_under_project, VcdTransition};

fn tr(sid: u32, time: u64, value: &str) -> VcdTransition {
    VcdTransition { signal_id: sid, time, value: value.to_string() }
}

fn flat(v: &[VcdTransition]) -> Vec<(u32, u64, String)> {
    v.iter().map(|t| (t.signal_id, t.time, t.value.clone())).collect()
}

#[test]
fn binary_values_parse_after_trimming() {
    assert_eq!(parse_bin_u128(" 101 "), Some(5));
    assert_eq!(parse_bin_u128("0000"), Some(0));
    assert_eq!(parse_bin_u128(""), None);
    assert_eq!(parse_bin_u128("10x1"), None);
    assert_eq!(parse_bin_u128(&"1".repeat(128)), Some(u128::MAX));
    assert_eq!(parse_bin_u128(&"1".repeat(129)), None);
    assert_eq!(parse_bin_u128(&format!("{}1", "0".repeat(200))), Some(1));
}

#[test]
fn single_bits_are_recognised() {
    assert_eq!(bit01(" 0"), Some(0));
    assert_eq!(bit01("1\n"), Some(1));
    assert_eq!(bit01("x"), None);
    assert_eq!(bit01("01"), None);
}

#[test]
fn edges_on_bits_and_buses() {
    assert!(edge_matches("0", "1", 1, EdgeKind::Rising));
    assert!(!edge_matches("1", "0", 1, EdgeKind::Rising));
    assert!(edge_matches("1", "0", 1, EdgeKind::Falling));
    assert!(!edge_matches("x", "1", 1, EdgeKind::Rising));
    assert!(edge_matches("x", "1", 1, EdgeKind::Any));
    assert!(!edge_matches("1", "1", 1, EdgeKind::Any));
    assert!(edge_matches("10", "11", 2, EdgeKind::Rising));
    assert!(edge_matches("11", "01", 2, EdgeKind::Falling));
    assert!(!edge_matches("1z", "11", 2, EdgeKind::Rising));
}

#[test]
fn bus_values_are_padded_or_cut_to_width() {
    assert_eq!(normalize_bus_binary_msb("101", 5), Some("00101".to_string()));
    assert_eq!(normalize_bus_binary_msb("110101", 3), Some("101".to_string()));
    assert_eq!(normalize_bus_binary_msb("b101", 3), None);
    assert_eq!(normalize_bus_binary_msb("  ", 3), None);
    assert_eq!(bit_at_lsb_index("0011", 0, 4), Some(1));
    assert_eq!(bit_at_lsb_index("0011", 3, 4), Some(0));
    assert_eq!(bit_at_lsb_index("0011", 4, 4), None);
    assert_eq!(bit_at_lsb_index("01", 0, 4), None);
    assert_eq!(bit_at_lsb_index("0011", 0, 0), None);
}

#[test]
fn edges_on_one_bit_of_a_bus() {
    assert!(edge_matches_lsb_bit("0011", "0101", 4, 1, EdgeKind::Falling));
    assert!(!edge_matches_lsb_bit("0011", "0101", 4, 1, EdgeKind::Rising));
    assert!(edge_matches_lsb_bit("0011", "0101", 4, 2, EdgeKind::Rising));
    assert!(!edge_matches_lsb_bit("0011", "0111", 4, 0, EdgeKind::Any));
    assert!(!edge_matches_lsb_bit("zz", "0111", 4, 0, EdgeKind::Any));
}

#[test]
fn value_holding_at_a_time() {
    let rows = vec![tr(1, 0, "0"), tr(1, 10, "1"), tr(1, 20, "0")];
    assert_eq!(value_at_or_before(&rows, 5), Some("0"));
    assert_eq!(value_at_or_before(&rows, 10), Some("1"));
    assert_eq!(value_at_or_before(&rows, 99), Some("0"));
    let late = vec![tr(1, 10, "1")];
    assert_eq!(value_at_or_before(&late, 5), None);
    assert_eq!(value_at_or_before(&Vec::new(), 5), None);
}

#[test]
fn resampling_keeps_changes_at_column_edges() {
    let rows = vec![tr(1, 0, "0"), tr(1, 10, "1"), tr(1, 20, "0")];
    let out = resample_transitions_for_viewport(&rows, 0, 20, 4, 1);
    assert_eq!(flat(&out), vec![(1, 0, "0".into()), (1, 10, "1".into()), (1, 20, "0".into())]);
    assert!(resample_transitions_for_viewport(&vec![], 0, 20, 4, 1).is_empty());
}

#[test]
fn decimation_samples_evenly_and_collapses_repeats() {
    let rows = vec![tr(2, 0, "a"), tr(2, 1, "b"), tr(2, 2, "c"), tr(2, 3, "d"), tr(2, 4, "e")];
    let out = decimate_transitions_slice(&rows, 3, 0, 4, 2);
    assert_eq!(flat(&out), vec![(2, 0, "a".into()), (2, 2, "c".into()), (2, 4, "e".into())]);
    let rows2 = vec![tr(2, 0, "a"), tr(2, 1, "a"), tr(2, 2, "b"), tr(2, 3, "b"), tr(2, 4, "b")];
    let out2 = decimate_transitions_slice(&rows2, 3, 0, 4, 2);
    assert_eq!(flat(&out2), vec![(2, 0, "a".into()), (2, 2, "b".into())]);
    assert_eq!(decimate_transitions_slice(&rows2, 10, 0, 4, 2).len(), 5);
}

#[test]
fn query_window_is_clamped_and_never_empty_inside_the_table() {
    let tt = vec![0u64, 10, 20];
    assert_eq!(query_window(30, 5, &tt), (5, 20));
    assert_eq!(query_window(7, 7, &tt), (7, 8));
    assert_eq!(query_window(25, 30, &tt), (19, 20));
    assert_eq!(query_window(5, 9, &vec![]), (0, 0));
}

#[test]
fn signal_window_carries_the_value_in_force_at_the_start() {
    let changes = vec![(0u32, "0".to_string()), (1, "1".to_string()), (2, "0".to_string()), (9, "x".to_string())];
    let tt = vec![0u64, 10, 20];
    let w = signal_window(7, &changes, &tt, 5, 15);
    assert_eq!(flat(&w), vec![(7, 5, "0".into()), (7, 10, "1".into())]);
    let thin = thin_transitions(w, 5, 15, 7, None, None);
    assert_eq!(thin.len(), 2);
    let before_only = signal_window(7, &vec![(0u32, "1".to_string())], &tt, 5, 15);
    assert_eq!(flat(&before_only), vec![(7, 5, "1".into())]);
}

#[test]
fn transitions_sort_by_time_then_signal_stably() {
    let v = vec![tr(2, 10, "a"), tr(1, 10, "b"), tr(1, 5, "c"), tr(1, 10, "d")];
    let s = sort_transitions(v);
    assert_eq!(
        flat(&s),
        vec![(1, 5, "c".into()), (1, 10, "b".into()), (1, 10, "d".into()), (2, 10, "a".into())]
    );
}

#[test]
fn edge_search_forward_and_backward() {
    assert_eq!(edge_kind_from_name("RISING"), EdgeKind::Rising);
    assert_eq!(edge_kind_from_name("Falling"), EdgeKind::Falling);
    assert_eq!(edge_kind_from_name("both"), EdgeKind::Any);
    let tt = vec![0u64, 5, 10, 15];
    let changes: Vec<(u32, String)> =
        vec![(0, "0".into()), (1, "1".into()), (2, "0".into()), (3, "1".into()), (7, "0".into())];
    let points = edge_points(&changes, &tt);
    assert_eq!(points.len(), 4);
    assert_eq!(find_edge_time(&points, 1, 5, true, EdgeKind::Rising, None), Some(15));
    assert_eq!(find_edge_time(&points, 1, 15, false, EdgeKind::Rising, None), Some(5));
    assert_eq!(find_edge_time(&points, 1, 0, true, EdgeKind::Falling, None), Some(10));
    assert_eq!(find_edge_time(&points, 1, 15, true, EdgeKind::Any, None), None);
    let bus = vec![(0u64, "0011".to_string()), (5, "0101".to_string())];
    assert_eq!(find_edge_time(&bus, 4, 0, true, EdgeKind::Rising, Some(1)), None);
    assert_eq!(find_edge_time(&bus, 4, 0, true, EdgeKind::Falling, Some(1)), Some(5));
    assert_eq!(find_edge_time(&bus[..1].to_vec(), 4, 0, true, EdgeKind::Any, None), None);
}

#[test]
fn waveform_paths_must_be_absolute_vcd_files_under_the_project() {
    let p = "/proj".to_string();
    let f = "/proj/out.vcd".to_string();
    assert_eq!(path_under_project(false, &p, &f, true, true, &Some("vcd".into())), Err("VCD path must be absolute".to_string()));
    assert_eq!(
        path_under_project(true, &p, &"/other/x.vcd".to_string(), false, true, &Some("vcd".into())),
        Err("Path must be under project folder:\n  project: /proj\n  file: /other/x.vcd".to_string())
    );
    assert_eq!(path_under_project(true, &p, &f, true, false, &Some("vcd".into())), Err("Not a file: /proj/out.vcd".to_string()));
    assert_eq!(path_under_project(true, &p, &f, true, true, &Some("VCD".into())), Ok(f.clone()));
    assert_eq!(
        path_under_project(true, &p, &f, true, true, &Some("txt".into())),
        Err("Only .vcd files are supported".to_string())
    );
    assert_eq!(path_under_project(true, &p, &f, true, true, &None), Err("Only .vcd files are supported".to_string()));
}

#[test]
fn zsh_detection_and_unit_labels() {
    assert!(shell_binary_is_zsh("/bin/zsh"));
    assert!(shell_binary_is_zsh("zsh"));
    assert!(!shell_binary_is_zsh("/bin/bash"));
    assert!(!shell_binary_is_zsh("/bin/xzsh"));
    assert_eq!(timescale_unit_label(VcdTimeUnit::PicoSeconds), "ps");
    assert_eq!(timescale_unit_label(VcdTimeUnit::Unknown), "unknown");
}

fn var(signal_id: u32, name: &str, length: Option<u32>) -> HierItem {
    HierItem::Var { signal_id, name: name.to_string(), length }
}

fn sample_hierarchy() -> Vec<HierScope> {
    let inner = HierScope { name: "u0".to_string(), items: vec![var(2, "q", Some(8)), var(3, "en", None)] };
    let top = HierScope {
        name: "tb".to_string(),
        items: vec![var(0, "clk", Some(1)), HierItem::Scope(inner), var(2, "q_alias", Some(4))],
    };
    let other = HierScope { name: "aux".to_string(), items: vec![var(5, "bus", Some(16))] };
    vec![top, other]
}

#[test]
fn bits_for_signal_takes_first_depth_first_match() {
    let h = sample_hierarchy();
    assert_eq!(bits_for_signal(&h, 2), 8);
    assert_eq!(bits_for_signal(&h, 5), 16);
}

#[test]
fn bits_for_signal_defaults_to_one_bit() {
    let h = sample_hierarchy();
    assert_eq!(bits_for_signal(&h, 3), 1);
    assert_eq!(bits_for_signal(&h, 99), 1);
}

#[test]
fn hierarchy_tree_keeps_scopes_and_vars_in_order() {
    let tree = hierarchy_tree(&sample_hierarchy());
    assert_eq!(tree.len(), 2);
    let tb = &tree[0];
    assert_eq!(tb.name, "tb");
    assert_eq!(tb.vars.len(), 2);
    assert_eq!((tb.vars[0].signal_id, tb.vars[0].name.as_str(), tb.vars[0].bits), (0, "clk", 1));
    assert_eq!((tb.vars[1].signal_id, tb.vars[1].name.as_str(), tb.vars[1].bits), (2, "q_alias", 4));
    assert_eq!(tb.scopes.len(), 1);
    assert_eq!(tb.scopes[0].name, "u0");
    assert_eq!(tb.scopes[0].vars[1].bits, 1);
    assert_eq!(tree[1].vars[0].name, "bus");
}

fn trace(sid: u32, changes: &[(u32, &str)]) -> SignalTrace {
    SignalTrace { signal_id: sid, changes: changes.iter().map(|(i, v)| (*i, v.to_string())).collect() }
}

#[test]
fn query_merges_traces_in_time_order() {
    let tt = vec![0u64, 10, 20, 30];
    let traces = vec![trace(1, &[(0, "0"), (2, "1")]), trace(2, &[(1, "a"), (3, "b")])];
    let q = query_transitions(&tt, &traces, 25, 5, None, None);
    assert_eq!(
        flat(&q.transitions),
        vec![(1, 5, "0".to_string()), (2, 10, "a".to_string()), (1, 20, "1".to_string())]
    );
}

#[test]
fn query_is_refused_without_the_waveform() {
    let tt = vec![0u64, 10];
    let traces: Vec<SignalTrace> = vec![];
    assert_eq!(
        vcd_query_answer(QuerySession::NotLoaded, &tt, &traces, 0, 10, None, None).err(),
        Some("No VCD loaded; open a waveform first".to_string())
    );
    assert_eq!(
        vcd_query_answer(QuerySession::OtherFile, &tt, &traces, 0, 10, None, None).err(),
        Some("VCD session path mismatch; reload waveform".to_string())
    );
    let ok = vcd_query_answer(QuerySession::Loaded, &tt, &traces, 0, 10, None, None).expect("answer");
    assert!(ok.transitions.is_empty());
}

#[test]
fn find_edge_answer_uses_hierarchy_width_and_edge_name() {
    let tops = vec![HierScope { name: "tb".to_string(), items: vec![var(7, "clk", None)] }];
    let tt = vec![0u64, 10, 20];
    let changes = vec![(0u32, "0".to_string()), (1, "1".to_string()), (2, "0".to_string())];
    let next_rise = vcd_find_edge_answer(QuerySession::Loaded, &tops, &tt, Some(&changes), 7, 0, true, "Rising", None);
    assert_eq!(next_rise, Ok(Some(10)));
    let prev_fall = vcd_find_edge_answer(QuerySession::Loaded, &tops, &tt, Some(&changes), 7, 25, false, "falling", None);
    assert_eq!(prev_fall, Ok(Some(20)));
    let missing = vcd_find_edge_answer(QuerySession::Loaded, &tops, &tt, None, 7, 0, true, "any", None);
    assert_eq!(missing, Err("Signal not found".to_string()));
    let unloaded = vcd_find_edge_answer(QuerySession::NotLoaded, &tops, &tt, Some(&changes), 7, 0, true, "any", None);
    assert_eq!(unloaded, Err("No VCD loaded; open a waveform first".to_string()));
}

#[test]
fn open_response_reports_bounds_timescale_and_tree() {
    let tt = vec![5u64, 15, 40];
    let r = vcd_open_response("w.vcd".to_string(), &tt, Some((10, VcdTimeUnit::NanoSeconds)), &sample_hierarchy(), 3, 3);
    assert!(!r.superseded);
    assert_eq!((r.time_start, r.time_end), (5, 40));
    assert_eq!(r.timescale_factor, Some(10));
    assert_eq!(r.timescale_unit.as_deref(), Some("ns"));
    assert_eq!(r.hierarchy.len(), 2);
    let empty: Vec<u64> = vec![];
    let s = vcd_open_response("w.vcd".to_string(), &empty, None, &vec![], 2, 3);
    assert!(s.superseded);
    assert_eq!((s.time_start, s.time_end), (0, 0));
    assert_eq!(s.timescale_unit, None);
}

#[test]
fn query_window_accepts_a_table_ending_at_the_largest_time() {
    assert_eq!(query_window(5, 9, &vec![0, u64::MAX]), (5, 9));
}
