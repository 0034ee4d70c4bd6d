# verilog_core

A small IEEE 1364 Verilog front end and event-driven simulator that writes VCD, written in
Verus. The simulator, the lowering to the IR, the delay and time-unit arithmetic, the VCD text
and the viewer queries have contracts that fix their results. The parser's contracts give the
grammar of expressions, statements and blocks, header port lists, and `initial` / `always` / `assign`
items; the other module items (declarations, instances, parameters, generate
loops) only by their kind, and the diagnostics only in part. The `csverilog` run is stated
relative to what the parser gives for each source.

## Layout

- `src/` — the verified library:
  - `lexer.rs`, `parser.rs`: tokens and the concrete syntax tree;
  - `expr_const.rs`, `ir.rs`: constant expressions, lowering to the IR, port resolution and
    parameter elaboration;
  - `delay_rational.rs`, `timescale_util.rs`, `arith.rs`, `strutil.rs`: exact delays, time
    units, fixed-width arithmetic and text helpers;
  - `codegen.rs`, `simulator.rs`, `vcd.rs`: expression semantics, hierarchy flattening, the
    statement and time-step relations of the simulator, and the VCD text;
  - `pipeline.rs`: the `csverilog` run (diagnostics, top module, `` `timescale``, run length);
  - `viewer.rs`: the waveform viewer's queries over parsed VCD data.
- `tests/`: tests of the library.
- `app/`: the `csverilog` command line (arguments, file discovery and I/O).
