//! The VCD text the simulator writes: header, scope tree, value lines, and the time loop
//! (`run`) that produces them; `generate_vcd` is the entry point.
use vstd::prelude::*;
use crate::codegen::{contains_name, lhs_width_spec, sig_get, sig_value};
use crate::simulator::{
    apply_step, changes_spec, changes_view, comb_rounds, commit_step, name_set, exec_state, fire_spec, mid, mid_env,
    register_spec, stmts_step, AlwaysDelayProc, EnvState, ExecState, InitialEvent, ScopeNode, Simulator,
};
use crate::codegen::same_env;
use crate::codegen::{copy_env, env_equal, normalize_vcd_timescale_line, vcd_timescale_spec, SigEnv, SimTables};
use crate::ir::{lex_less, lemma_seq_less_irreflexive, seq_less, IrModule, IrProject, IrStmt};
use crate::simulator::built_from;
use crate::timescale_util::{
    clock_half_period_fine_ticks, coarse_unit_spec, sat_mul_usize, sat_mul_usize_spec, timescale_token_to_fs,
    token_fs_spec, unit_per_precision_ratio, unit_per_precision_spec,
};
use crate::strutil::{all_digits, chars_of, decimal_spec, is_digit, string_from_chars, string_push, u128_to_chars};

verus! {

/// Appends the characters of `v` to `out`.
pub fn push_chars(out: &mut String, v: &Vec<char>)
    ensures
        final(out)@ == old(out)@ + v@,
{
    let mut i: usize = 0;
    while i < v.len()
        invariant
            i <= v.len(),
            out@ == old(out)@ + v@.take(i as int),
        decreases v.len() - i,
    {
        string_push(out, v[i]);
        assert(v@.take(i + 1) == v@.take(i as int).push(v@[i as int]));
        i = i + 1;
    }
    assert(v@.take(v.len() as int) == v@);
}

/// Identifier bound to `name` in an identifier table (the last binding wins).
pub open spec fn id_of(ids: Seq<(String, String)>, name: Seq<char>) -> Option<Seq<char>>
    decreases ids.len(),
{
    if ids.len() == 0 {
        None
    } else if ids.last().0@ == name {
        Some(ids.last().1@)
    } else {
        id_of(ids.drop_last(), name)
    }
}

/// The identifier of `name` in `ids` (see [`id_of`]).
pub fn find_vcd_id(ids: &Vec<(String, String)>, name: &String) -> (r: Option<String>)
    ensures
        match r {
            Some(s) => id_of(ids@, name@) == Some(s@),
            None => id_of(ids@, name@) is None,
        },
{
    let mut i = ids.len();
    assert(ids@.take(i as int) == ids@);
    while i > 0
        invariant
            i <= ids.len(),
            id_of(ids@, name@) == id_of(ids@.take(i as int), name@),
        decreases i,
    {
        assert(ids@.take(i as int).drop_last() == ids@.take(i - 1));
        if ids[i - 1].0 == *name {
            return Some(ids[i - 1].1.clone());
        }
        i = i - 1;
    }
    None
}

/// Character of bit `i` of `v` (`'1'` or `'0'`); the shift amount is taken modulo 64.
pub open spec fn bit_char(v: i64, i: nat) -> char {
    if (v >> ((i % 64) as u32)) & 1i64 != 0 {
        '1'
    } else {
        '0'
    }
}

/// Bits `w-1` down to `0` of `v`, most significant first.
pub open spec fn bits_text(v: i64, w: nat) -> Seq<char>
    decreases w,
{
    if w == 0 {
        seq![]
    } else {
        seq![bit_char(v, (w - 1) as nat)] + bits_text(v, (w - 1) as nat)
    }
}

/// `s` without its leading `c` characters.
pub open spec fn trim_start_char_spec(s: Seq<char>, c: char) -> Seq<char>
    decreases s.len(),
{
    if s.len() > 0 && s[0] == c {
        trim_start_char_spec(s.drop_first(), c)
    } else {
        s
    }
}

/// Binary digits of a vector value: the `w` low bits without leading zeros (`"0"` when all zero).
pub open spec fn binary_digits(v: i64, w: nat) -> Seq<char> {
    let t = trim_start_char_spec(bits_text(v, w), '0');
    if t.len() == 0 {
        seq!['0']
    } else {
        t
    }
}

/// A value-change line: `0id` / `1id` for one bit, `b<digits> id` for a vector.
pub open spec fn value_line(v: i64, w: nat, id: Seq<char>) -> Seq<char> {
    if w == 1 {
        seq![if v & 1i64 != 0 { '1' } else { '0' }] + id + seq!['\n']
    } else {
        seq!['b'] + binary_digits(v, w) + seq![' '] + id + seq!['\n']
    }
}

/// An unknown-value line: `xid` for one bit, `bx id` for a vector.
pub open spec fn x_line(w: nat, id: Seq<char>) -> Seq<char> {
    if w == 1 {
        seq!['x'] + id + seq!['\n']
    } else {
        seq!['b', 'x', ' '] + id + seq!['\n']
    }
}

/// A timestamp line `#t`.
pub open spec fn timestamp_line(t: nat) -> Seq<char> {
    seq!['#'] + decimal_spec(t) + seq!['\n']
}

/// `s.trim_start_matches(c)` on a character vector.
fn trim_start_char(v: &Vec<char>, c: char) -> (r: Vec<char>)
    ensures
        r@ == trim_start_char_spec(v@, c),
{
    let mut a: usize = 0;
    assert(v@.skip(0) == v@);
    while a < v.len() && v[a] == c
        invariant
            a <= v.len(),
            trim_start_char_spec(v@, c) == trim_start_char_spec(v@.skip(a as int), c),
        decreases v.len() - a,
    {
        assert(v@.skip(a as int).drop_first() == v@.skip(a + 1));
        a = a + 1;
    }
    let mut r: Vec<char> = Vec::new();
    let mut i = a;
    while i < v.len()
        invariant
            a <= i <= v.len(),
            r@ == v@.subrange(a as int, i as int),
        decreases v.len() - i,
    {
        r.push(v[i]);
        assert(v@.subrange(a as int, i + 1) == v@.subrange(a as int, i as int).push(v@[i as int]));
        i = i + 1;
    }
    assert(v@.skip(a as int) == v@.subrange(a as int, v.len() as int));
    r
}

/// The `w` low bits of `v`, most significant first.
fn bits_of(v: i64, w: usize) -> (r: Vec<char>)
    ensures
        r@ == bits_text(v, w as nat),
{
    let mut r: Vec<char> = Vec::new();
    let mut i = w;
    while i > 0
        invariant
            i <= w,
            r@ + bits_text(v, i as nat) == bits_text(v, w as nat),
        decreases i,
    {
        let k: u32 = ((i - 1) % 64) as u32;
        let ch = if (v >> k) & 1i64 != 0 { '1' } else { '0' };
        assert(ch == bit_char(v, (i - 1) as nat));
        r.push(ch);
        assert(r@ + bits_text(v, (i - 1) as nat) == bits_text(v, w as nat));
        i = i - 1;
    }
    assert(r@ + bits_text(v, 0) == r@);
    r
}

/// Appends the value-change line of a signal of width `w` with identifier `id`.
fn push_value_line(out: &mut String, v: i64, w: usize, id: &String)
    ensures
        final(out)@ == old(out)@ + value_line(v, w as nat, id@),
{
    if w == 1 {
        string_push(out, if v & 1i64 != 0 { '1' } else { '0' });
        out.append(id.as_str());
        string_push(out, '\n');
    } else {
        string_push(out, 'b');
        let t = trim_start_char(&bits_of(v, w), '0');
        if t.len() == 0 {
            string_push(out, '0');
        } else {
            push_chars(out, &t);
        }
        string_push(out, ' ');
        out.append(id.as_str());
        string_push(out, '\n');
    }
}

/// Appends the unknown-value line of a signal of width `w` with identifier `id`.
fn push_x_line(out: &mut String, w: usize, id: &String)
    ensures
        final(out)@ == old(out)@ + x_line(w as nat, id@),
{
    if w == 1 {
        string_push(out, 'x');
    } else {
        string_push(out, 'b');
        string_push(out, 'x');
        string_push(out, ' ');
    }
    out.append(id.as_str());
    string_push(out, '\n');
}

impl<'a> Simulator<'a> {
    /// Width of `name` in the simulator's tables.
    pub open spec fn width_of(&self, name: Seq<char>) -> usize {
        lhs_width_spec(name, self.tables.widths@, self.tables.mem_bounds@, self.tables.mem_elem_width@)
    }

    /// Value line of `name` (nothing for a signal without identifier).
    pub open spec fn signal_value_text(&self, name: Seq<char>, v: i64) -> Seq<char> {
        match id_of(self.vcd_ids@, name) {
            Some(id) => value_line(v, self.width_of(name) as nat, id),
            None => seq![],
        }
    }

    /// Unknown-value line of `name` (nothing for a signal without identifier).
    pub open spec fn signal_x_text(&self, name: Seq<char>) -> Seq<char> {
        match id_of(self.vcd_ids@, name) {
            Some(id) => x_line(self.width_of(name) as nat, id),
            None => seq![],
        }
    }

    /// The `$dumpvars` lines of the signals `order` for values `sig` and driven names `d`: the
    /// value of a driven signal, `x` for the others.
    pub open spec fn values_text(&self, order: Seq<String>, sig: Seq<(String, i64)>, d: Set<Seq<char>>) -> Seq<char>
        decreases order.len(),
    {
        if order.len() == 0 {
            seq![]
        } else {
            let n = order.last()@;
            self.values_text(order.drop_last(), sig, d) + if d.contains(n) {
                self.signal_value_text(n, sig_value(sig, n))
            } else {
                self.signal_x_text(n)
            }
        }
    }

    /// Appends a timestamp line.
    pub fn write_timestamp(&self, out: &mut String, sim_time: u128)
        ensures
            final(out)@ == old(out)@ + timestamp_line(sim_time as nat),
    {
        string_push(out, '#');
        push_chars(out, &u128_to_chars(sim_time));
        string_push(out, '\n');
    }

    /// Appends the value line of `name` with value `val`.
    pub fn write_signal_value(&self, out: &mut String, name: &String, val: i64)
        ensures
            final(out)@ == old(out)@ + self.signal_value_text(name@, val),
    {
        match find_vcd_id(&self.vcd_ids, name) {
            Some(id) => {
                let w = self.width_for_signal(name);
                push_value_line(out, val, w, &id);
            },
            None => {
                assert(old(out)@ + seq![] == old(out)@);
            },
        }
    }

    /// Appends the unknown-value line of `name`.
    pub fn write_signal_x(&self, out: &mut String, name: &String)
        ensures
            final(out)@ == old(out)@ + self.signal_x_text(name@),
    {
        match find_vcd_id(&self.vcd_ids, name) {
            Some(id) => {
                let w = self.width_for_signal(name);
                push_x_line(out, w, &id);
            },
            None => {
                assert(old(out)@ + seq![] == old(out)@);
            },
        }
    }

    /// Appends the `$dumpvars` lines of every signal in dump order.
    pub fn write_all_values_initial(&self, out: &mut String)
        ensures
            final(out)@ == old(out)@ + self.values_text(self.signal_order@, self.signals@, name_set(self.driven@)),
    {
        let mut i: usize = 0;
        while i < self.signal_order.len()
            invariant
                i <= self.signal_order.len(),
                out@ == old(out)@ + self.values_text(self.signal_order@.take(i as int), self.signals@, name_set(self.driven@)),
            decreases self.signal_order.len() - i,
        {
            let name = &self.signal_order[i];
            assert(self.signal_order@.take(i + 1).drop_last() == self.signal_order@.take(i as int));
            if contains_name(&self.driven, name) {
                assert(name_set(self.driven@).contains(name@));
                let v = sig_get(&self.signals, name);
                self.write_signal_value(out, name, v);
            } else {
                self.write_signal_x(out, name);
            }
            i = i + 1;
        }
        assert(self.signal_order@.take(self.signal_order.len() as int) == self.signal_order@);
    }
}

/// The pieces of `s` between `__` separators, scanned left to right (as `str::split("__")`).
pub open spec fn split_parts(s: Seq<char>) -> Seq<Seq<char>>
    decreases s.len(),
{
    if s.len() == 0 {
        seq![seq![]]
    } else if s.len() >= 2 && s[0] == '_' && s[1] == '_' {
        seq![seq![]] + split_parts(s.skip(2))
    } else {
        let r = split_parts(s.drop_first());
        r.update(0, seq![s[0]] + r[0])
    }
}

/// `split_parts` never returns an empty list.
pub proof fn lemma_split_parts_nonempty(s: Seq<char>)
    ensures
        split_parts(s).len() >= 1,
    decreases s.len(),
{
    if s.len() >= 2 && s[0] == '_' && s[1] == '_' {
        lemma_split_parts_nonempty(s.skip(2));
    } else if s.len() > 0 {
        lemma_split_parts_nonempty(s.drop_first());
    }
}

/// Display name of a flattened signal name: the last `__` piece, or `inst_k` when the last
/// piece is all digits (an element of an unpacked array or a generate copy).
pub open spec fn display_name_spec(flat: Seq<char>) -> Seq<char> {
    let ps = split_parts(flat);
    if ps.len() >= 2 && all_digits(ps.last()) {
        ps[ps.len() - 2] + seq!['_'] + ps.last()
    } else {
        ps.last()
    }
}

/// The display name of a flattened signal (see [`display_name_spec`]).
pub fn vcd_display_name(flat: &String) -> (r: String)
    ensures
        r@ == display_name_spec(flat@),
{
    let s = chars_of(flat.as_str());
    let ghost full = s@;
    let ghost mut done: Seq<Seq<char>> = seq![];
    let mut prev: Vec<char> = Vec::new();
    let mut have_prev = false;
    let mut cur: Vec<char> = Vec::new();
    let mut p: usize = 0;
    proof {
        lemma_split_parts_nonempty(full);
        assert(full.skip(0) == full);
        let r = split_parts(full);
        assert(r == done + seq![cur@ + r[0]] + r.skip(1));
    }
    while p < s.len()
        invariant
            p <= s.len(),
            s@ == full,
            full == flat@,
            have_prev == (done.len() > 0),
            have_prev ==> prev@ == done.last(),
            split_parts(full) == done + seq![cur@ + split_parts(full.skip(p as int))[0]] + split_parts(
                full.skip(p as int),
            ).skip(1),
        decreases s.len() - p,
    {
        let ghost t = full.skip(p as int);
        proof {
            lemma_split_parts_nonempty(t);
        }
        if p + 1 < s.len() && s[p] == '_' && s[p + 1] == '_' {
            proof {
                let r2 = split_parts(t.skip(2));
                lemma_split_parts_nonempty(t.skip(2));
                assert(t.skip(2) == full.skip(p + 2));
                assert(split_parts(t) == seq![seq![]] + r2);
                assert(split_parts(t)[0] == Seq::<char>::empty());
                assert(split_parts(t).skip(1) == r2);
                assert(cur@ + Seq::<char>::empty() == cur@);
                assert(r2 == seq![r2[0]] + r2.skip(1));
                assert(seq![Seq::<char>::empty() + r2[0]] + r2.skip(1) == r2);
                assert(split_parts(full) == done.push(cur@) + seq![Seq::<char>::empty() + r2[0]] + r2.skip(1));
                done = done.push(cur@);
            }
            prev = cur;
            have_prev = true;
            cur = Vec::new();
            p = p + 2;
        } else {
            proof {
                let r2 = split_parts(t.drop_first());
                lemma_split_parts_nonempty(t.drop_first());
                assert(t.drop_first() == full.skip(p + 1));
                assert(split_parts(t) == r2.update(0, seq![t[0]] + r2[0]));
                assert(split_parts(t).skip(1) == r2.skip(1));
                assert(cur@ + split_parts(t)[0] == cur@.push(t[0]) + r2[0]);
            }
            cur.push(s[p]);
            p = p + 1;
        }
    }
    proof {
        assert(full.skip(p as int).len() == 0);
        assert(split_parts(full.skip(p as int)) == seq![Seq::<char>::empty()]);
        assert(cur@ + Seq::<char>::empty() == cur@);
        assert(split_parts(full) == done.push(cur@));
    }
    let mut all_dig = true;
    let mut k: usize = 0;
    while k < cur.len()
        invariant
            k <= cur.len(),
            all_dig == (forall|j: int| 0 <= j < k ==> is_digit(#[trigger] cur@[j])),
        decreases cur.len() - k,
    {
        if !('0' <= cur[k] && cur[k] <= '9') {
            all_dig = false;
        }
        k = k + 1;
    }
    if have_prev && all_dig {
        let mut r = string_from_chars(&prev);
        string_push(&mut r, '_');
        push_chars(&mut r, &cur);
        r
    } else {
        string_from_chars(&cur)
    }
}

impl<'a> Simulator<'a> {
    /// The `$var` line of `sig` (nothing for a signal without identifier).
    pub open spec fn var_text(&self, sig: Seq<char>) -> Seq<char> {
        match id_of(self.vcd_ids@, sig) {
            None => seq![],
            Some(id) => {
                let w = self.width_of(sig) as nat;
                let kind = if register_spec(self.always_blocks@, self.initial_events@, self.always_delay_procs@, sig) {
                    "reg"@
                } else {
                    "wire"@
                };
                let head = "$var "@ + kind + seq![' '] + decimal_spec(w) + seq![' '] + id + seq![' '] + display_name_spec(sig);
                if w > 1 {
                    head + " ["@ + decimal_spec((w - 1) as nat) + ":0] $end\n"@
                } else {
                    head + " $end\n"@
                }
            },
        }
    }

    /// The `$var` lines of `sigs`, in order.
    pub open spec fn vars_text(&self, sigs: Seq<String>) -> Seq<char>
        decreases sigs.len(),
    {
        if sigs.len() == 0 {
            seq![]
        } else {
            self.vars_text(sigs.drop_last()) + self.var_text(sigs.last()@)
        }
    }

    /// The `$scope ... $upscope` text of a scope node and its children.
    pub open spec fn scope_text(&self, n: ScopeNode) -> Seq<char>
        decreases n, 0nat,
    {
        "$scope module "@ + n.name@ + " $end\n"@ + self.vars_text(n.signals@) + self.scopes_text(n.children@)
            + "$upscope $end\n"@
    }

    /// The scope texts of `cs`, in order.
    pub open spec fn scopes_text(&self, cs: Seq<ScopeNode>) -> Seq<char>
        decreases cs, 0nat,
    {
        if cs.len() == 0 {
            seq![]
        } else {
            self.scopes_text(cs.subrange(0, cs.len() - 1)) + self.scope_text(cs[cs.len() - 1])
        }
    }

    /// Appends the `$var` line of `sig`.
    #[verifier::rlimit(40)]
    fn write_var(&self, out: &mut String, sig: &String)
        ensures
            final(out)@ == old(out)@ + self.var_text(sig@),
    {
        match find_vcd_id(&self.vcd_ids, sig) {
            None => {
                assert(old(out)@ + seq![] == old(out)@);
            },
            Some(id) => {
                let w = self.width_for_signal(sig);
                out.append("$var ");
                if self.is_register(sig) {
                    out.append("reg");
                } else {
                    out.append("wire");
                }
                string_push(out, ' ');
                push_chars(out, &u128_to_chars(w as u128));
                string_push(out, ' ');
                out.append(id.as_str());
                string_push(out, ' ');
                let dn = vcd_display_name(sig);
                out.append(dn.as_str());
                if w > 1 {
                    out.append(" [");
                    push_chars(out, &u128_to_chars((w - 1) as u128));
                    out.append(":0] $end\n");
                } else {
                    out.append(" $end\n");
                }
            },
        }
    }

    /// Appends the scope text of `scope` (see [`Simulator::scope_text`]).
    pub fn write_scope(&self, out: &mut String, scope: &ScopeNode)
        ensures
            final(out)@ == old(out)@ + self.scope_text(*scope),
        decreases scope, 0nat,
    {
        out.append("$scope module ");
        out.append(scope.name.as_str());
        out.append(" $end\n");
        let ghost mid = out@;
        let mut i: usize = 0;
        while i < scope.signals.len()
            invariant
                i <= scope.signals.len(),
                out@ == mid + self.vars_text(scope.signals@.take(i as int)),
            decreases scope.signals.len() - i,
        {
            assert(scope.signals@.take(i + 1).drop_last() == scope.signals@.take(i as int));
            self.write_var(out, &scope.signals[i]);
            i = i + 1;
        }
        assert(scope.signals@.take(scope.signals.len() as int) == scope.signals@);
        self.write_scopes(out, &scope.children);
        out.append("$upscope $end\n");
    }

    /// Appends the scope texts of `children`, in order.
    fn write_scopes(&self, out: &mut String, children: &Vec<ScopeNode>)
        ensures
            final(out)@ == old(out)@ + self.scopes_text(children@),
        decreases children@, 0nat,
    {
        let mut i: usize = 0;
        while i < children.len()
            invariant
                i <= children.len(),
                out@ == old(out)@ + self.scopes_text(children@.take(i as int)),
            decreases children.len() - i,
        {
            assert(decreases_to!(children@ => children@[i as int]));
            assert(children@.take(i + 1).subrange(0, i as int) == children@.take(i as int));
            self.write_scope(out, &children[i]);
            i = i + 1;
        }
        assert(children@.take(children.len() as int) == children@);
    }
}

/// Debug metadata written into the VCD header as `$comment` blocks (viewers ignore them).
pub struct VcdRunMeta {
    /// Source file where the top module was defined.
    pub top_source_file: Option<String>,
    /// Other Verilog inputs.
    pub additional_source_files: Vec<String>,
    /// Command line or invocation string of the run.
    pub command_line: Option<String>,
    /// Intended output `.vcd` path.
    pub output_vcd_path: Option<String>,
    /// Working directory of the run.
    pub working_directory: Option<String>,
    /// Number of module definitions in the IR (set by `generate_vcd`).
    pub ir_module_count: usize,
}

impl Default for VcdRunMeta {
    fn default() -> (r: Self)
        ensures
            r.top_source_file is None,
            r.additional_source_files@.len() == 0,
            r.command_line is None,
            r.output_vcd_path is None,
            r.working_directory is None,
            r.ir_module_count == 0,
    {
        VcdRunMeta {
            top_source_file: None,
            additional_source_files: Vec::new(),
            command_line: None,
            output_vcd_path: None,
            working_directory: None,
            ir_module_count: 0,
        }
    }
}

/// Configuration of a simulation / VCD run.
pub struct SimConfig {
    /// Name of the top-level module.
    pub top_module: String,
    /// Number of clock cycles to simulate.
    pub num_cycles: usize,
    /// `` `timescale`` unit (`#` delays in the source are in these steps).
    pub timescale: String,
    /// `` `timescale`` precision, written to `$timescale`; VCD times count these ticks.
    pub timescale_precision: String,
    /// Clock half-period in time units.
    pub clock_half_period: usize,
    /// Whether the half-period was given explicitly (implicit ones may use a finer grid for
    /// units of one second or more).
    pub clock_half_period_is_explicit: bool,
    /// Sum of `#delay` literals the cycle count was derived from, if any (header comment only).
    pub initial_delay_sum_units: Option<usize>,
    /// Extra `$comment` lines; filled in by `generate_vcd` when absent.
    pub vcd_meta: Option<VcdRunMeta>,
}

impl Default for SimConfig {
    fn default() -> (r: Self)
        ensures
            r.top_module@ == Seq::<char>::empty(),
            r.num_cycles == 20,
            r.timescale@ == "1ns"@,
            r.timescale_precision@ == "1ns"@,
            r.clock_half_period == 5,
            !r.clock_half_period_is_explicit,
            r.initial_delay_sum_units is None,
            r.vcd_meta is None,
    {
        SimConfig {
            top_module: String::new(),
            num_cycles: 20,
            timescale: "1ns".to_owned(),
            timescale_precision: "1ns".to_owned(),
            clock_half_period: 5,
            clock_half_period_is_explicit: false,
            initial_delay_sum_units: None,
            vcd_meta: None,
        }
    }
}

/// The lines of a `$comment` block, each indented by two spaces.
pub open spec fn comment_lines_text(ls: Seq<Seq<char>>) -> Seq<char>
    decreases ls.len(),
{
    if ls.len() == 0 {
        seq![]
    } else {
        comment_lines_text(ls.drop_last()) + "  "@ + ls.last() + seq!['\n']
    }
}

/// A `$comment ... $end` block holding `ls`.
pub open spec fn comment_block(ls: Seq<Seq<char>>) -> Seq<char> {
    "$comment\n"@ + comment_lines_text(ls) + "$end\n"@
}

/// The views of a list of strings.
pub open spec fn views(v: Seq<String>) -> Seq<Seq<char>> {
    v.map_values(|x: String| x@)
}

/// Lines of the first comment block: version, top module, timescale, the delay sum if any,
/// the run length and the module count.
pub open spec fn main_comment_lines(config: SimConfig, module_count: usize, h: nat) -> Seq<Seq<char>> {
    let hh: nat = if h == 0 { 1 } else { h };
    let last = sat_mul_usize_spec(sat_mul_usize_spec(config.num_cycles as nat, 2), hh);
    let head = seq![
        "verilog-core 0.1.0"@,
        "top_module: "@ + config.top_module@,
        "`timescale (unit / VCD precision): "@ + config.timescale@ + seq!['/'] + config.timescale_precision@,
    ];
    let with_sum = match config.initial_delay_sum_units {
        Some(sum) => head.push(
            "initial #delay literal sum (selected source files, time-unit steps): "@ + decimal_spec(sum as nat),
        ),
        None => head,
    };
    with_sum.push(
        "simulation: num_cycles="@ + decimal_spec(config.num_cycles as nat) + " clock_half_period_units="@
            + decimal_spec(config.clock_half_period as nat) + " clock_half_period_fine="@ + decimal_spec(h)
            + " vcd_$timescale="@ + config.timescale_precision@,
    ).push(
        "vcd_last_timestamp: #"@ + decimal_spec(last) + " (precision_ticks; use --cycles in csverilog to override length)"@,
    ).push("ir_module_count: "@ + decimal_spec(module_count as nat))
}

/// A one-line comment block `label + v`, when `v` is present.
pub open spec fn opt_block(label: Seq<char>, v: Option<String>) -> Seq<char> {
    match v {
        Some(x) => comment_block(seq![label + x@]),
        None => seq![],
    }
}

/// The block listing the other source files, when there are any.
pub open spec fn others_block(ps: Seq<String>) -> Seq<char> {
    if ps.len() == 0 {
        seq![]
    } else {
        comment_block(seq!["other_source_files:"@] + ps.map_values(|p: String| "  "@ + p@))
    }
}

/// All `$comment` blocks of the header (none without metadata).
pub open spec fn comments_text(config: SimConfig, h: nat) -> Seq<char> {
    match config.vcd_meta {
        None => seq![],
        Some(meta) => comment_block(main_comment_lines(config, meta.ir_module_count, h)) + opt_block(
            "top_source_file: "@,
            meta.top_source_file,
        ) + others_block(meta.additional_source_files@) + opt_block("working_directory: "@, meta.working_directory)
            + opt_block("command_line: "@, meta.command_line) + opt_block("output_vcd_path: "@, meta.output_vcd_path),
    }
}

/// Appends a `$comment` block holding `lines`.
fn write_comment_block(out: &mut String, lines: &Vec<String>)
    ensures
        final(out)@ == old(out)@ + comment_block(views(lines@)),
{
    out.append("$comment\n");
    let ghost mid = out@;
    let mut i: usize = 0;
    while i < lines.len()
        invariant
            i <= lines.len(),
            out@ == mid + comment_lines_text(views(lines@.take(i as int))),
        decreases lines.len() - i,
    {
        assert(views(lines@.take(i + 1)).drop_last() == views(lines@.take(i as int)));
        out.append("  ");
        out.append(lines[i].as_str());
        string_push(out, '\n');
        i = i + 1;
    }
    assert(lines@.take(lines.len() as int) == lines@);
    out.append("$end\n");
}

/// `label + v` as a string.
fn labelled(label: &str, v: &String) -> (r: String)
    ensures
        r@ == label@ + v@,
{
    let mut r = label.to_owned();
    r.append(v.as_str());
    r
}

/// `label + decimal(n)` as a string.
fn labelled_number(label: &str, n: usize) -> (r: String)
    ensures
        r@ == label@ + decimal_spec(n as nat),
{
    let mut r = label.to_owned();
    push_chars(&mut r, &u128_to_chars(n as u128));
    r
}

/// Appends the one-line block `label + v` when `v` is present.
fn write_opt_block(out: &mut String, label: &str, v: &Option<String>)
    ensures
        final(out)@ == old(out)@ + opt_block(label@, *v),
{
    match v {
        Some(x) => {
            let mut lines: Vec<String> = Vec::new();
            lines.push(labelled(label, x));
            assert(views(lines@) == seq![label@ + x@]);
            write_comment_block(out, &lines);
        },
        None => {
            assert(old(out)@ + seq![] == old(out)@);
        },
    }
}

/// The lines of the first comment block (see [`main_comment_lines`]).
fn main_comment_lines_exec(config: &SimConfig, module_count: usize, clock_half_period_fine: usize) -> (lines: Vec<String>)
    ensures
        views(lines@) == main_comment_lines(*config, module_count, clock_half_period_fine as nat),
{
    let h = if clock_half_period_fine < 1 { 1 } else { clock_half_period_fine };
    let last_sim = sat_mul_usize(sat_mul_usize(config.num_cycles, 2), h);
    let mut lines: Vec<String> = Vec::new();
    lines.push("verilog-core 0.1.0".to_owned());
    lines.push(labelled("top_module: ", &config.top_module));
    let mut ts = labelled("`timescale (unit / VCD precision): ", &config.timescale);
    string_push(&mut ts, '/');
    ts.append(config.timescale_precision.as_str());
    assert(ts@ =~= "`timescale (unit / VCD precision): "@ + config.timescale@ + seq!['/'] + config.timescale_precision@);
    lines.push(ts);
    match config.initial_delay_sum_units {
        Some(sum) => {
            lines.push(labelled_number("initial #delay literal sum (selected source files, time-unit steps): ", sum));
        },
        None => {},
    }
    let mut sim = labelled_number("simulation: num_cycles=", config.num_cycles);
    sim.append(" clock_half_period_units=");
    push_chars(&mut sim, &u128_to_chars(config.clock_half_period as u128));
    sim.append(" clock_half_period_fine=");
    push_chars(&mut sim, &u128_to_chars(clock_half_period_fine as u128));
    sim.append(" vcd_$timescale=");
    sim.append(config.timescale_precision.as_str());
    assert(sim@ =~= "simulation: num_cycles="@ + decimal_spec(config.num_cycles as nat) + " clock_half_period_units="@
        + decimal_spec(config.clock_half_period as nat) + " clock_half_period_fine="@ + decimal_spec(
        clock_half_period_fine as nat,
    ) + " vcd_$timescale="@ + config.timescale_precision@);
    lines.push(sim);
    let mut last = labelled_number("vcd_last_timestamp: #", last_sim);
    last.append(" (precision_ticks; use --cycles in csverilog to override length)");
    assert(last@ =~= "vcd_last_timestamp: #"@ + decimal_spec(last_sim as nat)
        + " (precision_ticks; use --cycles in csverilog to override length)"@);
    lines.push(last);
    lines.push(labelled_number("ir_module_count: ", module_count));
    assert(views(lines@) =~= main_comment_lines(*config, module_count, clock_half_period_fine as nat));
    lines
}

/// Appends the block listing the other source files (see [`others_block`]).
fn write_others_block(out: &mut String, files: &Vec<String>)
    ensures
        final(out)@ == old(out)@ + others_block(files@),
{
    if files.len() == 0 {
        assert(old(out)@ + seq![] == old(out)@);
        return;
    }
    let mut others: Vec<String> = Vec::new();
    others.push("other_source_files:".to_owned());
    let mut i: usize = 0;
    while i < files.len()
        invariant
            i <= files.len(),
            views(others@) == seq!["other_source_files:"@] + files@.take(i as int).map_values(|p: String| "  "@ + p@),
        decreases files.len() - i,
    {
        let ghost before = others@;
        others.push(labelled("  ", &files[i]));
        assert(views(others@) =~= views(before).push("  "@ + files@[i as int]@));
        assert(files@.take(i + 1).map_values(|p: String| "  "@ + p@) =~= files@.take(i as int).map_values(
            |p: String| "  "@ + p@,
        ).push("  "@ + files@[i as int]@));
        i = i + 1;
    }
    assert(files@.take(files.len() as int) == files@);
    write_comment_block(out, &others);
}

/// Appends the header's `$comment` blocks (see [`comments_text`]).
pub fn write_vcd_debug_comments(out: &mut String, config: &SimConfig, clock_half_period_fine: usize)
    ensures
        final(out)@ == old(out)@ + comments_text(*config, clock_half_period_fine as nat),
{
    let meta = match &config.vcd_meta {
        Some(m) => m,
        None => {
            assert(old(out)@ + seq![] == old(out)@);
            return;
        },
    };
    let lines = main_comment_lines_exec(config, meta.ir_module_count, clock_half_period_fine);
    write_comment_block(out, &lines);
    write_opt_block(out, "top_source_file: ", &meta.top_source_file);
    write_others_block(out, &meta.additional_source_files);
    write_opt_block(out, "working_directory: ", &meta.working_directory);
    write_opt_block(out, "command_line: ", &meta.command_line);
    write_opt_block(out, "output_vcd_path: ", &meta.output_vcd_path);
}

impl<'a> Simulator<'a> {
    /// The VCD header for the date text `date`: `$date`, `$version`, `$timescale` (the
    /// precision), the comment blocks, the scope tree and `$enddefinitions`.
    pub open spec fn header_text(&self, date: Seq<char>, config: SimConfig, h: nat) -> Seq<char> {
        "$date\n  "@ + date + "\n$end\n$version\n  CircuitScope VCD Generator (verilog-core 0.1.0)\n$end\n$timescale\n\t"@
            + vcd_timescale_spec(config.timescale_precision@) + "\n$end\n"@ + comments_text(config, h) + self.scope_text(
            self.scope_tree,
        ) + "$enddefinitions $end\n"@
    }

    /// Appends the VCD header dated with the local date and time of the call.
    pub fn write_header(&self, out: &mut String, config: &SimConfig, clock_half_period_fine: usize)
        ensures
            exists|date: Seq<char>| final(out)@ == old(out)@ + self.header_text(date, *config, clock_half_period_fine as nat),
    {
        let date = current_date_string();
        self.write_header_with_date(out, config, clock_half_period_fine, &date);
    }

    /// Appends the VCD header with the date text `date` (see [`Simulator::header_text`]).
    pub fn write_header_with_date(&self, out: &mut String, config: &SimConfig, clock_half_period_fine: usize, date: &String)
        ensures
            final(out)@ == old(out)@ + self.header_text(date@, *config, clock_half_period_fine as nat),
    {
        out.append("$date\n  ");
        out.append(date.as_str());
        out.append("\n$end\n$version\n  CircuitScope VCD Generator (verilog-core 0.1.0)\n$end\n$timescale\n\t");
        let ts = normalize_vcd_timescale_line(config.timescale_precision.as_str());
        out.append(ts.as_str());
        out.append("\n$end\n");
        write_vcd_debug_comments(out, config, clock_half_period_fine);
        self.write_scope(out, &self.scope_tree);
        out.append("$enddefinitions $end\n");
    }
}

/// `s` (sorted, without duplicates) with `n` inserted in order, unless already present.
pub open spec fn insert_sorted(s: Seq<Seq<char>>, n: Seq<char>) -> Seq<Seq<char>>
    decreases s.len(),
{
    if s.len() == 0 {
        seq![n]
    } else if seq_less(n, s[0]) {
        seq![n] + s
    } else if n == s[0] {
        s
    } else {
        seq![s[0]] + insert_sorted(s.drop_first(), n)
    }
}

/// The source paths of `ms` other than `top`, sorted by code point and without duplicates.
pub open spec fn sorted_other_paths(ms: Seq<IrModule>, top: Seq<char>) -> Seq<Seq<char>>
    decreases ms.len(),
{
    if ms.len() == 0 {
        seq![]
    } else {
        let r = sorted_other_paths(ms.drop_last(), top);
        if ms.last().path@ == top {
            r
        } else {
            insert_sorted(r, ms.last().path@)
        }
    }
}

proof fn lemma_insert_sorted_at(s: Seq<Seq<char>>, n: Seq<char>, i: int)
    requires
        0 <= i <= s.len(),
        forall|j: int| 0 <= j < i ==> !seq_less(n, #[trigger] s[j]) && n != s[j],
        i < s.len() ==> seq_less(n, s[i]) || n == s[i],
    ensures
        insert_sorted(s, n) == if i < s.len() && n == s[i] {
            s
        } else {
            s.take(i) + seq![n] + s.skip(i)
        },
    decreases i,
{
    if i > 0 {
        let t = s.drop_first();
        assert(!seq_less(n, s[0]) && n != s[0]);
        assert forall|j: int| 0 <= j < i - 1 implies !seq_less(n, #[trigger] t[j]) && n != t[j] by {
            assert(t[j] == s[j + 1]);
        }
        if i < s.len() {
            assert(t[i - 1] == s[i]);
        }
        lemma_insert_sorted_at(t, n, i - 1);
        assert(insert_sorted(s, n) == seq![s[0]] + insert_sorted(t, n));
        assert(s.take(i) =~= seq![s[0]] + t.take(i - 1));
        assert(s.skip(i) =~= t.skip(i - 1));
        if i < s.len() && n == s[i] {
            assert(insert_sorted(s, n) =~= s);
        } else {
            assert(insert_sorted(s, n) =~= s.take(i) + seq![n] + s.skip(i));
        }
    } else {
        if s.len() == 0 {
            assert(insert_sorted(s, n) =~= s.take(i) + seq![n] + s.skip(i));
        } else if n == s[0] {
            lemma_seq_less_irreflexive(n);
        } else {
            assert(insert_sorted(s, n) =~= s.take(i) + seq![n] + s.skip(i));
        }
    }
}

/// Inserts `p` into the sorted path list `v` (see [`insert_sorted`]).
pub fn insert_sorted_path(v: &mut Vec<String>, p: &String)
    ensures
        views(final(v)@) == insert_sorted(views(old(v)@), p@),
{
    let mut i: usize = 0;
    while i < v.len()
        invariant
            i <= v.len(),
            *v == *old(v),
            forall|j: int| 0 <= j < i ==> !seq_less(p@, (#[trigger] views(v@)[j])) && p@ != views(v@)[j],
        ensures
            i <= v.len(),
            *v == *old(v),
            forall|j: int| 0 <= j < i ==> !seq_less(p@, (#[trigger] views(v@)[j])) && p@ != views(v@)[j],
            i < v.len() ==> seq_less(p@, views(v@)[i as int]) || p@ == views(v@)[i as int],
        decreases v.len() - i,
    {
        if lex_less(p, &v[i]) || v[i] == *p {
            break;
        }
        i = i + 1;
    }
    proof {
        lemma_insert_sorted_at(views(v@), p@, i as int);
    }
    let ghost s = v@;
    if i < v.len() && v[i] == *p {
        return;
    }
    v.insert(i, p.clone());
    assert(views(v@) =~= views(s).take(i as int) + seq![p@] + views(s).skip(i as int));
}

/// The view of an optional string.
pub open spec fn opt_view(o: Option<String>) -> Option<Seq<char>> {
    match o {
        Some(s) => Some(s@),
        None => None,
    }
}

/// Field `f` of an optional metadata record, `None` when there is none.
pub open spec fn meta_top(m: Option<VcdRunMeta>) -> Option<Seq<char>> {
    match m {
        Some(x) => opt_view(x.top_source_file),
        None => None,
    }
}

/// The other source files of an optional metadata record (none when there is none).
pub open spec fn meta_others(m: Option<VcdRunMeta>) -> Seq<Seq<char>> {
    match m {
        Some(x) => views(x.additional_source_files@),
        None => seq![],
    }
}

/// The command line, output path and working directory of an optional metadata record.
pub open spec fn meta_rest(m: Option<VcdRunMeta>) -> (Option<Seq<char>>, Option<Seq<char>>, Option<Seq<char>>) {
    match m {
        Some(x) => (opt_view(x.command_line), opt_view(x.output_vcd_path), opt_view(x.working_directory)),
        None => (None, None, None),
    }
}

/// `meta` completes `given` for a run of `modules` with top module defined in `top_path`: the
/// top source file defaults to `top_path`; the other source files default to the sorted distinct
/// paths of the modules that are not the top source file; the module count is set.
pub open spec fn merged_meta(given: Option<VcdRunMeta>, modules: Seq<IrModule>, top_path: Seq<char>, meta: VcdRunMeta) -> bool {
    let top = match meta_top(given) {
        Some(t) => t,
        None => top_path,
    };
    &&& opt_view(meta.top_source_file) == Some(top)
    &&& views(meta.additional_source_files@) == if meta_others(given).len() == 0 {
        sorted_other_paths(modules, top)
    } else {
        meta_others(given)
    }
    &&& meta.ir_module_count == modules.len()
    &&& (opt_view(meta.command_line), opt_view(meta.output_vcd_path), opt_view(meta.working_directory)) == meta_rest(given)
}

/// Fills in the run metadata of `config` (see [`merged_meta`]); the other fields stay.
pub fn merge_vcd_run_meta(project: &IrProject, top: &IrModule, config: &mut SimConfig)
    ensures
        final(config).vcd_meta matches Some(m) && merged_meta(old(config).vcd_meta, project.modules@, top.path@, m),
        final(config).top_module == old(config).top_module,
        final(config).num_cycles == old(config).num_cycles,
        final(config).timescale == old(config).timescale,
        final(config).timescale_precision == old(config).timescale_precision,
        final(config).clock_half_period == old(config).clock_half_period,
        final(config).clock_half_period_is_explicit == old(config).clock_half_period_is_explicit,
        final(config).initial_delay_sum_units == old(config).initial_delay_sum_units,
{
    let mut slot: Option<VcdRunMeta> = None;
    std::mem::swap(&mut slot, &mut config.vcd_meta);
    let mut meta = match slot {
        Some(m) => m,
        None => VcdRunMeta::default(),
    };
    let top_path = match &meta.top_source_file {
        Some(t) => t.clone(),
        None => top.path.clone(),
    };
    if meta.top_source_file.is_none() {
        meta.top_source_file = Some(top.path.clone());
    }
    if meta.additional_source_files.len() == 0 {
        let mut paths: Vec<String> = Vec::new();
        let mut i: usize = 0;
        while i < project.modules.len()
            invariant
                i <= project.modules.len(),
                views(paths@) == sorted_other_paths(project.modules@.take(i as int), top_path@),
            decreases project.modules.len() - i,
        {
            assert(project.modules@.take(i + 1).drop_last() == project.modules@.take(i as int));
            if project.modules[i].path != top_path {
                insert_sorted_path(&mut paths, &project.modules[i].path);
            }
            i = i + 1;
        }
        assert(project.modules@.take(project.modules.len() as int) == project.modules@);
        meta.additional_source_files = paths;
    }
    meta.ir_module_count = project.modules.len();
    config.vcd_meta = Some(meta);
}

/// `chrono::Local::now().format("%a %b %e %H:%M:%S %Z %Y")`: the local date and time of the
/// call. It depends on the clock and the machine's time zone, so nothing is stated of it.
#[verifier::external_body]
fn current_date_string() -> String {
    chrono::Local::now().format("%a %b %e %H:%M:%S %Z %Y").to_string()
}

/// Clock half-period of a run in precision ticks (at least 1).
pub open spec fn run_half_period(config: SimConfig) -> nat {
    let k = unit_per_precision_spec(config.timescale@, config.timescale_precision@);
    if !config.clock_half_period_is_explicit && coarse_unit_spec(config.timescale@) && k > 1 {
        5
    } else {
        sat_mul_usize_spec(
            if config.clock_half_period < 1 { 1 } else { config.clock_half_period as nat },
            if k < 1 { 1 } else { k },
        )
    }
}

/// `a * b`, or `u128::MAX` when it does not fit.
fn sat_mul_u128(a: u128, b: u128) -> (r: u128)
    ensures
        r == if a * b > u128::MAX { u128::MAX as int } else { a * b },
{
    match a.checked_mul(b) {
        Some(p) => p,
        None => u128::MAX,
    }
}

/// `a + b`, or `u128::MAX` when it does not fit.
fn sat_add_u128(a: u128, b: u128) -> (r: u128)
    ensures
        r == if a + b > u128::MAX { u128::MAX as int } else { a + b },
{
    match a.checked_add(b) {
        Some(p) => p,
        None => u128::MAX,
    }
}

/// `a + b`, saturating at `u128::MAX`.
pub open spec fn sat_add_u128_spec(a: u128, b: u128) -> u128 {
    if a + b > u128::MAX { u128::MAX } else { (a + b) as u128 }
}

/// `a * b`, saturating at `u128::MAX`.
pub open spec fn sat_mul_u128_spec(a: u128, b: u128) -> u128 {
    if a * b > u128::MAX { u128::MAX } else { (a * b) as u128 }
}

/// Femtoseconds of one precision tick: the precision token, else the unit token, else 1000;
/// at least 1.
pub open spec fn precision_fs_spec(config: SimConfig) -> u128 {
    let p: u128 = match token_fs_spec(config.timescale_precision@) {
        Some(f) => f as u128,
        None => match token_fs_spec(config.timescale@) {
            Some(f) => f as u128,
            None => 1000,
        },
    };
    if p < 1 { 1 } else { p }
}

/// End of the simulation and of the VCD: `num_cycles × 2 × half-period` precision ticks, in
/// femtoseconds (saturating).
pub open spec fn base_end_spec(config: SimConfig) -> u128 {
    let steps = sat_mul_usize_spec(sat_mul_usize_spec(config.num_cycles as nat, 2), run_half_period(config));
    sat_mul_u128_spec(steps as u128, precision_fs_spec(config))
}

/// The earliest of `cur` and the event times after `t`.
pub open spec fn events_next(events: Seq<InitialEvent>, t: u128, cur: u128) -> u128
    decreases events.len(),
{
    if events.len() == 0 {
        cur
    } else {
        let m = events_next(events.drop_last(), t, cur);
        let x = events.last().time_fs;
        if x > t && x < m { x } else { m }
    }
}

/// The earliest of `cur` and the process firing times after `t`.
pub open spec fn procs_next(procs: Seq<AlwaysDelayProc>, t: u128, cur: u128) -> u128
    decreases procs.len(),
{
    if procs.len() == 0 {
        cur
    } else {
        let m = procs_next(procs.drop_last(), t, cur);
        let x = procs.last().next_fire_fs;
        if x > t && x < m { x } else { m }
    }
}

/// Next time anything happens after `t`: the earliest event or firing after it, else
/// `end + 1` (saturating).
pub open spec fn next_time_spec(events: Seq<InitialEvent>, procs: Seq<AlwaysDelayProc>, t: u128, end: u128) -> u128 {
    procs_next(procs, t, events_next(events, t, sat_add_spec(end)))
}

/// Running the `always #D` processes due at `tsim`, in order, from `a` ends in `b`: each runs
/// its statements on the current values with an empty queue, then its queued writes are
/// committed.
pub open spec fn delay_fire(t: SimTables, procs: Seq<AlwaysDelayProc>, tsim: u128, a: EnvState, b: EnvState) -> bool
    decreases procs.len(),
{
    if procs.len() == 0 {
        b == a
    } else {
        exists|m: EnvState, s: ExecState|
            #![trigger mid_env(m), mid(s)]
            delay_fire(t, procs.drop_last(), tsim, a, m) && if procs.last().next_fire_fs == tsim {
                stmts_step(t, procs.last().stmts@, (m.0, seq![], m.1), s) && commit_step(t, s.1, (s.0, s.2), b)
            } else {
                b == m
            }
    }
}

/// Process `q` is `p` after time `tsim`: a firing then is pushed one period later (saturating).
pub open spec fn advanced(p: AlwaysDelayProc, q: AlwaysDelayProc, tsim: u128) -> bool {
    &&& q.period_fs == p.period_fs
    &&& q.stmts == p.stmts
    &&& q.next_fire_fs == if p.next_fire_fs == tsim {
        sat_add_u128_spec(p.next_fire_fs, p.period_fs)
    } else {
        p.next_fire_fs
    }
}

/// Each process of `qs` is its counterpart of `ps` after time `tsim`.
pub open spec fn procs_advanced(ps: Seq<AlwaysDelayProc>, qs: Seq<AlwaysDelayProc>, tsim: u128) -> bool {
    ps.len() == qs.len() && forall|i: int| 0 <= i < ps.len() ==> #[trigger] advanced(ps[i], qs[i], tsim)
}

impl<'a> Simulator<'a> {
    /// Femtoseconds of one precision tick (see [`precision_fs_spec`]).
    fn precision_fs(config: &SimConfig) -> (r: u128)
        ensures
            r == precision_fs_spec(*config),
            r >= 1,
    {
        let p = match timescale_token_to_fs(config.timescale_precision.as_str()) {
            Some(f) => f,
            None => match timescale_token_to_fs(config.timescale.as_str()) {
                Some(f) => f,
                None => 1_000u128,
            },
        };
        if p < 1 {
            1
        } else {
            p
        }
    }

    /// Next time anything happens after `t_sim` (see [`next_time_spec`]).
    fn next_event_time(&self, t_sim: u128, end_fs: u128) -> (r: u128)
        ensures
            r == next_time_spec(self.initial_events@, self.always_delay_procs@, t_sim, end_fs),
    {
        let mut next_t = sat_add_u128(end_fs, 1);
        let mut i: usize = 0;
        while i < self.initial_events.len()
            invariant
                i <= self.initial_events.len(),
                next_t == events_next(self.initial_events@.take(i as int), t_sim, sat_add_spec(end_fs)),
            decreases self.initial_events.len() - i,
        {
            assert(self.initial_events@.take(i + 1).drop_last() == self.initial_events@.take(i as int));
            let t = self.initial_events[i].time_fs;
            if t > t_sim && t < next_t {
                next_t = t;
            }
            i = i + 1;
        }
        assert(self.initial_events@.take(self.initial_events.len() as int) == self.initial_events@);
        let ghost e = next_t;
        let mut q: usize = 0;
        while q < self.always_delay_procs.len()
            invariant
                q <= self.always_delay_procs.len(),
                next_t == procs_next(self.always_delay_procs@.take(q as int), t_sim, e),
            decreases self.always_delay_procs.len() - q,
        {
            assert(self.always_delay_procs@.take(q + 1).drop_last() == self.always_delay_procs@.take(q as int));
            let t = self.always_delay_procs[q].next_fire_fs;
            if t > t_sim && t < next_t {
                next_t = t;
            }
            q = q + 1;
        }
        assert(self.always_delay_procs@.take(self.always_delay_procs.len() as int) == self.always_delay_procs@);
        next_t
    }

    /// Runs the `always #D` processes due at `t_sim` (see [`delay_fire`] and [`procs_advanced`]).
    fn fire_delay_procs(&mut self, t_sim: u128)
        ensures
            final(self).signal_order == old(self).signal_order,
            final(self).vcd_ids == old(self).vcd_ids,
            final(self).tables == old(self).tables,
            final(self).assigns == old(self).assigns,
            final(self).always_blocks == old(self).always_blocks,
            final(self).initial_events == old(self).initial_events,
            final(self).prev_signals == old(self).prev_signals,
            final(self).initial_time_horizon_fs == old(self).initial_time_horizon_fs,
            final(self).scope_tree == old(self).scope_tree,
            delay_fire(
                old(self).tables,
                old(self).always_delay_procs@,
                t_sim,
                (old(self).signals@, name_set(old(self).driven@)),
                (final(self).signals@, name_set(final(self).driven@)),
            ),
            procs_advanced(old(self).always_delay_procs@, final(self).always_delay_procs@, t_sim),
    {
        let mut procs: Vec<AlwaysDelayProc> = Vec::new();
        std::mem::swap(&mut procs, &mut self.always_delay_procs);
        let ghost p0 = procs@;
        let ghost a0: EnvState = (self.signals@, name_set(self.driven@));
        assert(p0.take(0) =~= Seq::<AlwaysDelayProc>::empty());
        let mut i: usize = 0;
        while i < procs.len()
            invariant
                i <= procs.len(),
                procs@.len() == p0.len(),
                p0 == old(self).always_delay_procs@,
                a0 == (old(self).signals@, name_set(old(self).driven@)),
                forall|j: int| i <= j < p0.len() ==> #[trigger] procs@[j] == p0[j],
                forall|j: int| 0 <= j < i ==> #[trigger] advanced(p0[j], procs@[j], t_sim),
                self.signal_order == old(self).signal_order,
                self.vcd_ids == old(self).vcd_ids,
                self.tables == old(self).tables,
                self.assigns == old(self).assigns,
                self.always_blocks == old(self).always_blocks,
                self.initial_events == old(self).initial_events,
                self.prev_signals == old(self).prev_signals,
                self.initial_time_horizon_fs == old(self).initial_time_horizon_fs,
                self.scope_tree == old(self).scope_tree,
                delay_fire(self.tables, p0.take(i as int), t_sim, a0, (self.signals@, name_set(self.driven@))),
            decreases procs.len() - i,
        {
            let ghost cur: EnvState = (self.signals@, name_set(self.driven@));
            assert(procs@[i as int] == p0[i as int]);
            if procs[i].next_fire_fs == t_sim {
                let mut nba: Vec<(String, i64)> = Vec::new();
                self.exec_stmts(&procs[i].stmts, &mut nba);
                let ghost s = exec_state(self.signals@, nba@, self.driven@);
                let mut sig: SigEnv = Vec::new();
                std::mem::swap(&mut sig, &mut self.signals);
                self.commit_nba(&nba, &mut sig);
                std::mem::swap(&mut sig, &mut self.signals);
                let next = sat_add_u128(procs[i].next_fire_fs, procs[i].period_fs);
                procs[i].next_fire_fs = next;
                proof {
                    assert(mid(s));
                    assert(exec_state(cur.0, Seq::<(String, i64)>::empty(), old(self).driven@).1 =~= Seq::<(Seq<char>, i64)>::empty());
                }
            } else {
                proof {
                    let s0: ExecState = (cur.0, seq![], cur.1);
                    assert(mid(s0));
                }
            }
            proof {
                let tk = p0.take(i + 1);
                assert(tk.drop_last() == p0.take(i as int));
                assert(tk.last() == p0[i as int]);
                assert(mid_env(cur));
            }
            i = i + 1;
        }
        assert(p0.take(p0.len() as int) == p0);
        std::mem::swap(&mut procs, &mut self.always_delay_procs);
    }

    /// The fixed part of the simulation is the same in `self` and `o`.
    pub open spec fn same_design(&self, o: Simulator) -> bool {
        &&& self.signal_order == o.signal_order
        &&& self.vcd_ids == o.vcd_ids
        &&& self.tables == o.tables
        &&& self.assigns == o.assigns
        &&& self.always_blocks == o.always_blocks
        &&& self.initial_events == o.initial_events
        &&& self.initial_time_horizon_fs == o.initial_time_horizon_fs
        &&& self.scope_tree == o.scope_tree
    }

    /// The evolving part of the simulation.
    pub open spec fn sim_state(&self) -> SimState {
        (self.signals@, self.prev_signals@, name_set(self.driven@), self.always_delay_procs@)
    }

    /// One time step at `tsim` from `a` ends in `b`: the current values become the previous
    /// ones; the `initial` events at `tsim` apply; the `always #D` processes due fire; the
    /// continuous assignments settle; the `always` blocks fire (no stabilising); the continuous
    /// assignments settle again.
    pub open spec fn step_spec(&self, tsim: u128, a: SimState, b: SimState) -> bool {
        exists|a1: EnvState, a2: EnvState, a3: EnvState, a4: EnvState|
            #![trigger mid_env(a1), mid_env(a2), mid_env(a3), mid_env(a4)]
            mid_env(a1) && mid_env(a2) && mid_env(a3) && mid_env(a4) && apply_step(
                self.tables,
                self.initial_events@,
                tsim,
                (a.0, a.2),
                a1,
            ) && delay_fire(self.tables, a.3, tsim, a1, a2)
                && comb_rounds(self.tables, self.assigns@, 0, a2, a3) && fire_spec(
                self.tables,
                self.assigns@,
                self.always_blocks@,
                false,
                a3.0,
                a.0,
                a3.1,
                a4,
            ) && comb_rounds(self.tables, self.assigns@, 0, a4, (b.0, b.2)) && b.1 == a.0 && procs_advanced(a.3, b.3, tsim)
    }

    /// Rounds `r`, `r + 1`, ... (at most 64) of settling before the first dump, from `a` to
    /// `b`: the `always` blocks fire (stabilising, with the current values as previous ones) and
    /// the continuous assignments settle, until a round leaves the values as they were.
    pub open spec fn stab_spec(&self, r: nat, a: SimState, b: SimState) -> bool
        decreases 64 - r,
    {
        if r >= 64 {
            b == a
        } else {
            exists|m: EnvState, m2: EnvState|
                #![trigger mid_env(m), mid_env(m2)]
                fire_spec(self.tables, self.assigns@, self.always_blocks@, true, a.0, a.0, a.2, m) && comb_rounds(
                    self.tables,
                    self.assigns@,
                    0,
                    m,
                    m2,
                ) && if same_env(m2.0, a.0) {
                    b == (m2.0, a.0, m2.1, a.3)
                } else {
                    self.stab_spec(r + 1, (m2.0, a.0, m2.1, a.3), b)
                }
        }
    }

    /// The state at the first dump, from the initial state `a`: the time-0 `initial` events, the
    /// continuous assignments settled, then the settling rounds.
    pub open spec fn init_spec(&self, a: SimState, b: SimState) -> bool {
        exists|a1: EnvState, a2: EnvState|
            #![trigger mid_env(a1), mid_env(a2)]
            apply_step(self.tables, self.initial_events@, 0, (a.0, a.2), a1) && comb_rounds(self.tables, self.assigns@, 0, a1, a2)
                && self.stab_spec(0, (a2.0, a.1, a2.1, a.3), b)
    }

    /// The value lines of the changes `cs`, in order.
    pub open spec fn changes_lines(&self, cs: Seq<(Seq<char>, i64)>) -> Seq<char>
        decreases cs.len(),
    {
        if cs.len() == 0 {
            seq![]
        } else {
            self.changes_lines(cs.drop_last()) + self.signal_value_text(cs.last().0, cs.last().1)
        }
    }

    /// The text of a time step from state `before` to state `st`: nothing when no dumped signal
    /// changed or became driven; otherwise the timestamp (`tsim` in precision ticks) and a line
    /// per such signal.
    pub open spec fn chunk_text(&self, tsim: u128, prec: u128, before: SimState, st: SimState) -> Seq<char> {
        let cs = changes_spec(self.signal_order@, st.0, st.1, st.2, before.2);
        if cs.len() == 0 {
            seq![]
        } else {
            timestamp_line((tsim / prec) as nat) + self.changes_lines(cs)
        }
    }

    /// From time `tsim` in state `st`, the rest of the run up to `end` writes `text`: nothing
    /// when no event or firing remains up to `end`; otherwise the step at the next such time,
    /// its text, and the rest from there.
    pub open spec fn trace_rel(&self, tsim: u128, st: SimState, end: u128, prec: u128, text: Seq<char>) -> bool
        decreases end - tsim,
    {
        let next = next_time_spec(self.initial_events@, st.3, tsim, end);
        if next > end || next <= tsim {
            text == Seq::<char>::empty()
        } else {
            exists|st2: SimState, rest: Seq<char>|
                #![trigger mid_sim(st2), mid_text(rest)]
                self.step_spec(next, st, st2) && text == self.chunk_text(next, prec, st, st2) + rest && self.trace_rel(
                    next,
                    st2,
                    end,
                    prec,
                    rest,
                )
        }
    }

    /// Settles the state before the first dump (see [`Simulator::init_spec`]).
    fn settle_initial(&mut self)
        ensures
            final(self).same_design(*old(self)),
            old(self).init_spec(old(self).sim_state(), final(self).sim_state()),
    {
        let ghost s0 = self.sim_state();
        self.apply_initial_events_at_fs(0);
        let ghost a1: EnvState = (self.signals@, name_set(self.driven@));
        self.eval_combinational();
        let ghost a2: EnvState = (self.signals@, name_set(self.driven@));
        let ghost start: SimState = (a2.0, s0.1, a2.1, s0.3);
        assert(self.sim_state() == start);
        let mut round: usize = 0;
        loop
            invariant_except_break
                round <= 64,
                forall|b: SimState| #[trigger] old(self).stab_spec(round as nat, self.sim_state(), b) ==> old(self).stab_spec(
                    0,
                    start,
                    b,
                ),
            invariant
                self.same_design(*old(self)),
                start == (a2.0, s0.1, a2.1, s0.3),
                s0 == old(self).sim_state(),
            ensures
                self.same_design(*old(self)),
                old(self).stab_spec(0, start, self.sim_state()),
            decreases 64 - round,
        {
            let ghost cur = self.sim_state();
            if round >= 64 {
                assert(old(self).stab_spec(round as nat, cur, cur));
                break;
            }
            self.prev_signals = copy_env(&self.signals);
            let before = copy_env(&self.signals);
            self.fire_always_blocks(true);
            let ghost m: EnvState = (self.signals@, name_set(self.driven@));
            self.eval_combinational();
            let ghost m2: EnvState = (self.signals@, name_set(self.driven@));
            assert(mid_env(m) && mid_env(m2));
            if env_equal(&self.signals, &before) {
                assert(old(self).stab_spec(round as nat, cur, self.sim_state()));
                break;
            }
            let ghost r0 = round;
            round = round + 1;
            proof {
                assert forall|b: SimState| #[trigger] old(self).stab_spec(round as nat, self.sim_state(), b) implies old(
                    self,
                ).stab_spec(0, start, b) by {
                    assert(r0 as nat + 1 == round as nat);
                    assert(old(self).stab_spec(r0 as nat, cur, b));
                }
            }
        }
        assert(mid_env(a1) && mid_env(a2));
    }

    /// One time step at `t_sim` (see [`Simulator::step_spec`]).
    fn step(&mut self, t_sim: u128)
        ensures
            final(self).same_design(*old(self)),
            old(self).step_spec(t_sim, old(self).sim_state(), final(self).sim_state()),
    {
        let ghost a = self.sim_state();
        self.prev_signals = copy_env(&self.signals);
        self.apply_initial_events_at_fs(t_sim);
        let ghost a1: EnvState = (self.signals@, name_set(self.driven@));
        self.fire_delay_procs(t_sim);
        let ghost a2: EnvState = (self.signals@, name_set(self.driven@));
        self.eval_combinational();
        let ghost a3: EnvState = (self.signals@, name_set(self.driven@));
        self.fire_always_blocks(false);
        let ghost a4: EnvState = (self.signals@, name_set(self.driven@));
        self.eval_combinational();
        assert(mid_env(a1) && mid_env(a2) && mid_env(a3) && mid_env(a4));
    }

    /// Appends the text of a time step (see [`Simulator::chunk_text`]).
    fn write_changes(&self, out: &mut String, t_sim: u128, prec_fs: u128, was_driven: &Vec<String>, Ghost(before): Ghost<SimState>)
        requires
            prec_fs >= 1,
            before.2 == name_set(was_driven@),
        ensures
            final(out)@ == old(out)@ + self.chunk_text(t_sim, prec_fs, before, self.sim_state()),
    {
        let changes = self.collect_changes(was_driven);
        let ghost cs = changes_view(changes@);
        if changes.len() == 0 {
            assert(old(out)@ + seq![] == old(out)@);
            return;
        }
        self.write_timestamp(out, t_sim / prec_fs);
        let ghost v0 = out@;
        assert(cs.take(0) =~= Seq::<(Seq<char>, i64)>::empty());
        let mut c: usize = 0;
        while c < changes.len()
            invariant
                c <= changes.len(),
                cs == changes_view(changes@),
                out@ == v0 + self.changes_lines(cs.take(c as int)),
            decreases changes.len() - c,
        {
            assert(cs.take(c + 1).drop_last() == cs.take(c as int));
            assert(cs.take(c + 1).last() == (changes@[c as int].0@, changes@[c as int].1));
            self.write_signal_value(out, &changes[c].0, changes[c].1);
            c = c + 1;
        }
        assert(cs.take(changes.len() as int) == cs);
    }

    /// Runs the simulation and returns the VCD text: the header; `#0`, `$dumpvars` with every
    /// signal's value (or `x`) in the settled initial state, `$end`; then the text of each time
    /// step up to the end time.
    pub fn run(&mut self, config: &SimConfig) -> (r: String)
        ensures
            vcd_of_run(*old(self), *config, r@),
    {
        let mut vcd = String::new();
        let k = unit_per_precision_ratio(config.timescale.as_str(), config.timescale_precision.as_str());
        let h = clock_half_period_fine_ticks(
            config.clock_half_period,
            k,
            config.clock_half_period_is_explicit,
            config.timescale.as_str(),
        );
        let prec_fs = Self::precision_fs(config);
        let steps = sat_mul_usize(sat_mul_usize(config.num_cycles, 2), h);
        let base_end_fs = sat_mul_u128(steps as u128, prec_fs);
        assert(h == run_half_period(*config));
        assert(base_end_fs == base_end_spec(*config));
        let end_fs = base_end_fs;
        self.write_header(&mut vcd, config, h);
        let ghost head = vcd@;
        let ghost date = choose|d: Seq<char>| head == old(self).header_text(d, *config, h as nat);
        assert(head == old(self).header_text(date, *config, run_half_period(*config)));
        self.settle_initial();
        let ghost st0 = self.sim_state();
        self.write_timestamp(&mut vcd, 0);
        vcd.append("$dumpvars\n");
        self.write_all_values_initial(&mut vcd);
        proof {
            lemma_values_text_design(*self, *old(self), self.signal_order@, st0.0, st0.2);
        }
        vcd.append("$end\n");
        let ghost prefix = vcd@;
        assert(prefix == head + timestamp_line(0) + "$dumpvars\n"@ + old(self).values_text(old(self).signal_order@, st0.0, st0.2)
            + "$end\n"@);
        let mut t_sim: u128 = 0;
        assert(vcd@.skip(prefix.len() as int) =~= Seq::<char>::empty());
        loop
            invariant_except_break
                t_sim <= end_fs,
            invariant
                prec_fs == precision_fs_spec(*config),
                prec_fs >= 1,
                end_fs == base_end_spec(*config),
                self.same_design(*old(self)),
                vcd@.len() >= prefix.len(),
                vcd@.take(prefix.len() as int) == prefix,
                forall|rest: Seq<char>| #[trigger]
                    old(self).trace_rel(t_sim, self.sim_state(), end_fs, prec_fs, rest) ==> old(self).trace_rel(
                        0,
                        st0,
                        end_fs,
                        prec_fs,
                        vcd@.skip(prefix.len() as int) + rest,
                    ),
            ensures
                vcd@.take(prefix.len() as int) == prefix,
                old(self).trace_rel(0, st0, end_fs, prec_fs, vcd@.skip(prefix.len() as int)),
            decreases end_fs - t_sim,
        {
            let ghost cur = self.sim_state();
            let ghost acc = vcd@.skip(prefix.len() as int);
            let next_t = self.next_event_time(t_sim, end_fs);
            if next_t > end_fs || next_t <= t_sim {
                assert(old(self).trace_rel(t_sim, cur, end_fs, prec_fs, Seq::<char>::empty()));
                assert(acc + Seq::<char>::empty() == acc);
                break;
            }
            let ghost t0 = t_sim;
            t_sim = next_t;
            self.last_sim_time_fs = t_sim;
            let was_driven = copy_names(&self.driven);
            self.step(t_sim);
            let ghost st2 = self.sim_state();
            let ghost v0 = vcd@;
            self.write_changes(&mut vcd, t_sim, prec_fs, &was_driven, Ghost(cur));
            proof {
                lemma_changes_lines_design(*self, *old(self), changes_spec(self.signal_order@, st2.0, st2.1, st2.2, cur.2));
                let chunk = old(self).chunk_text(t_sim, prec_fs, cur, st2);
                assert(old(self).step_spec(t_sim, cur, st2));
                assert(vcd@ == v0 + chunk);
                assert(vcd@.take(prefix.len() as int) =~= prefix);
                assert(vcd@.skip(prefix.len() as int) =~= acc + chunk);
                assert forall|rest: Seq<char>| #[trigger] old(self).trace_rel(t_sim, self.sim_state(), end_fs, prec_fs, rest) implies old(
                    self,
                ).trace_rel(0, st0, end_fs, prec_fs, vcd@.skip(prefix.len() as int) + rest) by {
                    assert(mid_sim(st2) && mid_text(rest));
                    assert(old(self).trace_rel(t0, cur, end_fs, prec_fs, chunk + rest));
                    assert(acc + (chunk + rest) =~= (acc + chunk) + rest);
                }
            }
        }
        let ghost rest = vcd@.skip(prefix.len() as int);
        assert(vcd@ =~= prefix + rest);
        assert(mid_sim(st0) && mid_text(rest) && mid_text(date));
        vcd
    }
}

/// A copy of the names `v`.
fn copy_names(v: &Vec<String>) -> (r: Vec<String>)
    ensures
        r@ == v@,
{
    let mut r: Vec<String> = Vec::new();
    let mut i: usize = 0;
    while i < v.len()
        invariant
            i <= v.len(),
            r@ == v@.take(i as int),
        decreases v.len() - i,
    {
        r.push(v[i].clone());
        assert(r@ =~= v@.take(i + 1));
        i = i + 1;
    }
    assert(v@.take(v.len() as int) == v@);
    r
}

/// The dump text depends only on the identifiers and tables.
pub proof fn lemma_values_text_design(a: Simulator, b: Simulator, order: Seq<String>, sig: Seq<(String, i64)>, d: Set<Seq<char>>)
    requires
        a.vcd_ids == b.vcd_ids,
        a.tables == b.tables,
    ensures
        a.values_text(order, sig, d) == b.values_text(order, sig, d),
    decreases order.len(),
{
    if order.len() > 0 {
        lemma_values_text_design(a, b, order.drop_last(), sig, d);
    }
}

/// The change lines depend only on the identifiers and tables.
pub proof fn lemma_changes_lines_design(a: Simulator, b: Simulator, cs: Seq<(Seq<char>, i64)>)
    requires
        a.vcd_ids == b.vcd_ids,
        a.tables == b.tables,
    ensures
        a.changes_lines(cs) == b.changes_lines(cs),
    decreases cs.len(),
{
    if cs.len() > 0 {
        lemma_changes_lines_design(a, b, cs.drop_last());
    }
}

/// An intermediate simulation state (a trigger).
pub open spec fn mid_sim(m: SimState) -> bool {
    true
}

/// An intermediate piece of text (a trigger).
pub open spec fn mid_text(t: Seq<char>) -> bool {
    true
}

/// The evolving part of a simulation: current values, previous values, driven names, and the
/// `always #D` processes (their next firing times move).
pub type SimState = (Seq<(String, i64)>, Seq<(String, i64)>, Set<Seq<char>>, Seq<AlwaysDelayProc>);

/// `end + 1`, saturating at `u128::MAX`.
pub open spec fn sat_add_spec(end: u128) -> u128 {
    if end == u128::MAX {
        end
    } else {
        (end + 1) as u128
    }
}

/// Index of the first module named `name`.
fn find_top(modules: &Vec<IrModule>, name: &String) -> (r: Option<usize>)
    ensures
        match r {
            Some(i) => i < modules@.len() && modules@[i as int].name@ == name@ && forall|j: int|
                0 <= j < i ==> (#[trigger] modules@[j]).name@ != name@,
            None => forall|j: int| 0 <= j < modules@.len() ==> (#[trigger] modules@[j]).name@ != name@,
        },
{
    let mut i: usize = 0;
    while i < modules.len()
        invariant
            i <= modules.len(),
            forall|j: int| 0 <= j < i ==> (#[trigger] modules@[j]).name@ != name@,
        decreases modules.len() - i,
    {
        if modules[i].name == *name {
            return Some(i);
        }
        i = i + 1;
    }
    None
}

/// The error text for a missing top module.
pub open spec fn missing_top_message(name: Seq<char>) -> Seq<char> {
    "top module '"@ + name + "' not found"@
}

/// `text` is the VCD text of running `sim` with `config`: the header (dated some date); `#0`,
/// `$dumpvars` with every signal's value (or `x`) in the settled initial state, `$end`; then
/// the text of each time step up to the end time.
pub open spec fn vcd_of_run(sim: Simulator, config: SimConfig, text: Seq<char>) -> bool {
    exists|date: Seq<char>, st0: SimState, rest: Seq<char>|
        #![trigger mid_sim(st0), mid_text(rest), mid_text(date)]
        sim.init_spec(sim.sim_state(), st0) && sim.trace_rel(
            0,
            st0,
            base_end_spec(config),
            precision_fs_spec(config),
            rest,
        ) && text == sim.header_text(date, config, run_half_period(config)) + timestamp_line(0) + "$dumpvars\n"@
            + sim.values_text(sim.signal_order@, st0.0, st0.2) + "$end\n"@ + rest
}

/// `rc` is `config` with its run metadata completed (see [`merged_meta`]) for `modules` and the
/// top module's file `top_path`; the other settings stay.
pub open spec fn run_config_of(config: SimConfig, rc: SimConfig, modules: Seq<IrModule>, top_path: Seq<char>) -> bool {
    &&& rc.vcd_meta matches Some(m) && merged_meta(config.vcd_meta, modules, top_path, m)
    &&& rc.top_module == config.top_module
    &&& rc.num_cycles == config.num_cycles
    &&& rc.timescale == config.timescale
    &&& rc.timescale_precision == config.timescale_precision
    &&& rc.clock_half_period == config.clock_half_period
    &&& rc.clock_half_period_is_explicit == config.clock_half_period_is_explicit
    &&& rc.initial_delay_sum_units == config.initial_delay_sum_units
}

/// The time unit of a run in femtoseconds: `timescale` (1 ns when it does not parse).
pub open spec fn run_unit_fs(timescale: Seq<char>) -> u128 {
    match token_fs_spec(timescale) {
        Some(v) => v as u128,
        None => 1_000_000u128,
    }
}

/// `v` is the VCD of `config`'s run over `modules`: the simulator built for the first module
/// named `config.top_module`, run with `config` completed by the run metadata.
pub open spec fn vcd_of_project(modules: Seq<IrModule>, config: SimConfig, v: Seq<char>) -> bool {
    exists|i: int, sim: Simulator, rc: SimConfig|
        #![trigger built_from(sim, modules[i], modules, run_unit_fs(config.timescale@)), run_config_of(config, rc, modules, modules[i].path@)]
        0 <= i < modules.len() && modules[i].name@ == config.top_module@ && (forall|j: int|
            0 <= j < i ==> (#[trigger] modules[j]).name@ != config.top_module@) && built_from(
            sim,
            modules[i],
            modules,
            run_unit_fs(config.timescale@),
        ) && run_config_of(config, rc, modules, modules[i].path@) && vcd_of_run(sim, rc, v)
}

/// Simulates `config.top_module` of `project` and returns the VCD text; an error when no
/// module has that name. The run uses the first module of that name, the metadata completed
/// as [`merged_meta`] says, and the unit `config.timescale` (1 ns when it does not parse).
pub fn generate_vcd(project: &IrProject, config: &SimConfig) -> (r: Result<String, String>)
    ensures
        r is Err <==> forall|j: int| 0 <= j < project.modules@.len() ==> (#[trigger] project.modules@[j]).name@
            != config.top_module@,
        r matches Err(e) ==> e@ == missing_top_message(config.top_module@),
        r matches Ok(v) ==> vcd_of_project(project.modules@, *config, v@),
{
    let idx = match find_top(&project.modules, &config.top_module) {
        Some(i) => i,
        None => {
            let mut e = "top module '".to_owned();
            e.append(config.top_module.as_str());
            e.append("' not found");
            return Err(e);
        },
    };
    let top = &project.modules[idx];
    let mut run_config = SimConfig {
        top_module: config.top_module.clone(),
        num_cycles: config.num_cycles,
        timescale: config.timescale.clone(),
        timescale_precision: config.timescale_precision.clone(),
        clock_half_period: config.clock_half_period,
        clock_half_period_is_explicit: config.clock_half_period_is_explicit,
        initial_delay_sum_units: config.initial_delay_sum_units,
        vcd_meta: copy_meta(&config.vcd_meta),
    };
    merge_vcd_run_meta(project, top, &mut run_config);
    let unit_fs = match timescale_token_to_fs(config.timescale.as_str()) {
        Some(f) => f,
        None => 1_000_000u128,
    };
    assert(unit_fs == run_unit_fs(config.timescale@));
    let mut sim = Simulator::new(top, &project.modules, unit_fs);
    let ghost sim0 = sim;
    let text = sim.run(&run_config);
    assert(built_from(sim0, project.modules@[idx as int], project.modules@, run_unit_fs(config.timescale@)));
    assert(run_config_of(*config, run_config, project.modules@, project.modules@[idx as int].path@));
    Ok(text)
}

/// A copy of an optional string.
fn copy_opt_string(o: &Option<String>) -> (r: Option<String>)
    ensures
        opt_view(r) == opt_view(*o),
{
    match o {
        Some(s) => Some(s.clone()),
        None => None,
    }
}

/// A copy of optional run metadata (same views).
fn copy_meta(m: &Option<VcdRunMeta>) -> (r: Option<VcdRunMeta>)
    ensures
        meta_top(r) == meta_top(*m),
        meta_others(r) == meta_others(*m),
        meta_rest(r) == meta_rest(*m),
        r is Some <==> m is Some,
{
    match m {
        None => None,
        Some(x) => {
            let mut others: Vec<String> = Vec::new();
            let mut i: usize = 0;
            while i < x.additional_source_files.len()
                invariant
                    i <= x.additional_source_files.len(),
                    views(others@) == views(x.additional_source_files@.take(i as int)),
                decreases x.additional_source_files.len() - i,
            {
                let ghost before = others@;
                let c = x.additional_source_files[i].clone();
                others.push(c);
                assert(views(others@) =~= views(before).push(x.additional_source_files@[i as int]@));
                assert(x.additional_source_files@.take(i + 1) == x.additional_source_files@.take(i as int).push(
                    x.additional_source_files@[i as int],
                ));
                assert(views(others@) =~= views(x.additional_source_files@.take(i + 1)));
                i = i + 1;
            }
            assert(x.additional_source_files@.take(x.additional_source_files.len() as int) == x.additional_source_files@);
            Some(
                VcdRunMeta {
                    top_source_file: copy_opt_string(&x.top_source_file),
                    additional_source_files: others,
                    command_line: copy_opt_string(&x.command_line),
                    output_vcd_path: copy_opt_string(&x.output_vcd_path),
                    working_directory: copy_opt_string(&x.working_directory),
                    ir_module_count: x.ir_module_count,
                },
            )
        },
    }
}

} // verus!
