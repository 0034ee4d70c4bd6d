//! The `csverilog` run: the project-wide `` `timescale`` found in the sources' preambles, the
//! `#delay` budget of the `initial` blocks and the cycle count derived from it, the choice of
//! the top module, and the run from the sources' text to the VCD.
use vstd::prelude::*;
use crate::strutil::{
    chars_of, find_char, find_char_spec, lemma_find_char, slice_chars, string_from_chars, trim_chars,
    trim_end_chars, trim_end_spec, trim_spec, trim_start_chars, trim_start_spec,
};
use crate::delay_rational::ceil_div_spec;
use crate::ir::{
    build_ir_for_file, conn_refused, declared_count, file_delay, file_ir, first_module_kept, first_refusal_message, lemma_first_module_kept_grows,
    resolve_instance_port_connections, resolved_module, sum_initial_delay_literals_for_source_file, IrProject, IrModule,
};
use crate::timescale_util::{
    clock_half_period_fine_ticks, cycles_fine_spec, half_period_fine_spec, num_cycles_from_initial_delay_sum_fine, remove_ws,
    remove_ws_spec, unit_per_precision_ratio, unit_per_precision_spec,
};
use crate::vcd::{
    generate_vcd, insert_sorted, insert_sorted_path, opt_view, vcd_of_project,
    views, SimConfig, VcdRunMeta,
};
use crate::{diagnostic_line_spec, has_error, Diagnostic, Severity};
use crate::lexer::{lexed, Token};
use crate::parser::{declared_module_name, first_module_name};

verus! {

/// Overrides of the run length, time base and clock half-period.
pub struct CsVerilogOptions {
    /// Run length in clock periods; derived from the `#delay` sums when absent.
    pub num_cycles: Option<usize>,
    /// Unit and VCD precision at once (skips the `` `timescale`` scan).
    pub timescale: Option<String>,
    /// Clock half-period in time units (5 when absent).
    pub clock_half_period: Option<usize>,
}

impl Default for CsVerilogOptions {
    fn default() -> (r: Self)
        ensures
            r.num_cycles is None,
            r.timescale is None,
            r.clock_half_period is None,
    {
        CsVerilogOptions { num_cycles: None, timescale: None, clock_half_period: None }
    }
}

/// The project's `` `timescale unit / precision``.
pub struct TimescaleScan {
    /// The first file that declared it, if any.
    pub declaration_path: Option<String>,
    pub time_unit: String,
    pub time_precision: String,
    /// Every input whose preamble declares this (single) `` `timescale``.
    pub timescale_source_files: Vec<String>,
}

impl TimescaleScan {
    /// `1ns / 1ns`, declared nowhere.
    pub fn default_timescale() -> (r: Self)
        ensures
            r.declaration_path is None,
            r.time_unit@ == "1ns"@,
            r.time_precision@ == "1ns"@,
            r.timescale_source_files@.len() == 0,
    {
        TimescaleScan {
            declaration_path: None,
            time_unit: "1ns".to_owned(),
            time_precision: "1ns".to_owned(),
            timescale_source_files: Vec::new(),
        }
    }
}

/// A unit / precision pair with every whitespace character removed: the key under which two
/// directives count as the same.
pub fn normalize_timescale_tokens(unit: &str, prec: &str) -> (r: (String, String))
    ensures
        r.0@ == remove_ws_spec(unit@),
        r.1@ == remove_ws_spec(prec@),
{
    let u = remove_ws(&chars_of(unit));
    let p = remove_ws(&chars_of(prec));
    (string_from_chars(&u), string_from_chars(&p))
}

/// Index of the first `//` in `s`.
pub open spec fn find_comment_spec(s: Seq<char>) -> Option<int>
    decreases s.len(),
{
    if s.len() < 2 {
        None
    } else if s[0] == '/' && s[1] == '/' {
        Some(0)
    } else {
        match find_comment_spec(s.drop_first()) {
            Some(i) => Some(i + 1),
            None => None,
        }
    }
}

/// `//` starts at index `j` of `s`.
pub open spec fn slashes_at(s: Seq<char>, j: int) -> bool {
    s[j] == '/' && s[j + 1] == '/'
}

proof fn lemma_find_comment(s: Seq<char>)
    ensures
        match find_comment_spec(s) {
            Some(i) => 0 <= i && i + 2 <= s.len() && slashes_at(s, i) && forall|j: int|
                0 <= j < i ==> !#[trigger] slashes_at(s, j),
            None => forall|j: int| 0 <= j && j + 1 < s.len() ==> !#[trigger] slashes_at(s, j),
        },
    decreases s.len(),
{
    if s.len() >= 2 && !(s[0] == '/' && s[1] == '/') {
        lemma_find_comment(s.drop_first());
        assert forall|j: int| 1 <= j < s.len() implies s[j] == s.drop_first()[j - 1] by {}
        assert forall|j: int| 1 <= j && j + 1 < s.len() implies slashes_at(s, j) == slashes_at(s.drop_first(), j - 1) by {
            assert(s[j + 1] == s.drop_first()[j]);
        }
    }
}

/// The text of a line before its first `//`.
pub open spec fn before_comment(s: Seq<char>) -> Seq<char> {
    match find_comment_spec(s) {
        Some(i) => s.take(i),
        None => s,
    }
}

/// The text of `v` before its first `//`.
fn before_comment_exec(v: &Vec<char>) -> (r: Vec<char>)
    ensures
        r@ == before_comment(v@),
{
    proof {
        lemma_find_comment(v@);
    }
    let mut i: usize = 0;
    while i < v.len() && v.len() - i >= 2
        invariant
            i <= v.len(),
            forall|j: int| 0 <= j < i && j + 1 < v.len() ==> !#[trigger] slashes_at(v@, j),
            match find_comment_spec(v@) {
                Some(k) => 0 <= k && k + 2 <= v@.len() && slashes_at(v@, k) && forall|j: int|
                    0 <= j < k ==> !#[trigger] slashes_at(v@, j),
                None => forall|j: int| 0 <= j && j + 1 < v@.len() ==> !#[trigger] slashes_at(v@, j),
            },
        decreases v.len() - i,
    {
        if v[i] == '/' && v[i + 1] == '/' {
            assert(slashes_at(v@, i as int));
            assert(find_comment_spec(v@) == Some(i as int));
            return slice_chars(v, 0, i);
        }
        i = i + 1;
    }
    assert(find_comment_spec(v@) is None);
    assert(v@.subrange(0, v.len() as int) == v@);
    slice_chars(v, 0, v.len())
}

/// The code of a line: its text before `//`, without leading whitespace.
pub open spec fn line_code(line: Seq<char>) -> Seq<char> {
    trim_start_spec(before_comment(line))
}

/// A `` `timescale unit [/ prec]`` directive line: the trimmed unit, and the trimmed text after
/// the first `/` as precision (the unit again when that is empty or missing); `None` when the
/// code does not start with `` `timescale`` or has no unit.
pub open spec fn directive_spec(line: Seq<char>) -> Option<(Seq<char>, Seq<char>)> {
    let code = line_code(line);
    let kw = "`timescale"@;
    if code.len() < kw.len() || code.take(kw.len() as int) != kw {
        None
    } else {
        let rest = trim_spec(code.skip(kw.len() as int));
        if rest.len() == 0 {
            None
        } else {
            let (first, second) = match find_char_spec(rest, '/') {
                Some(i) => (rest.take(i), Some(rest.skip(i + 1))),
                None => (rest, None),
            };
            let unit = trim_spec(first);
            if unit.len() == 0 {
                None
            } else {
                let prec = match second {
                    Some(p) => if trim_spec(p).len() > 0 {
                        trim_spec(p)
                    } else {
                        unit
                    },
                    None => unit,
                };
                Some((unit, prec))
            }
        }
    }
}

/// Whether `a` starts with `b`.
fn starts_with_chars(a: &Vec<char>, b: &str) -> (r: bool)
    ensures
        r == (a@.len() >= b@.len() && a@.take(b@.len() as int) == b@),
{
    let w = chars_of(b);
    if a.len() < w.len() {
        return false;
    }
    let mut i: usize = 0;
    while i < w.len()
        invariant
            i <= w.len() <= a.len(),
            w@ == b@,
            forall|j: int| 0 <= j < i ==> a@[j] == w@[j],
        decreases w.len() - i,
    {
        if a[i] != w[i] {
            assert(a@.take(w.len() as int)[i as int] != w@[i as int]);
            return false;
        }
        i = i + 1;
    }
    assert(a@.take(w.len() as int) =~= w@);
    true
}

/// Whether `a` equals `b`.
fn equals_chars(a: &Vec<char>, b: &str) -> (r: bool)
    ensures
        r == (a@ == b@),
{
    let w = chars_of(b);
    if a.len() != w.len() {
        return false;
    }
    let r = starts_with_chars(a, b);
    assert(a@.take(b@.len() as int) == a@);
    r
}

/// A string of the characters `v`.
fn to_string(v: &Vec<char>) -> (s: String)
    ensures
        s@ == v@,
{
    string_from_chars(v.as_slice())
}

/// Parses a `` `timescale`` directive line (see [`directive_spec`]).
pub fn parse_timescale_directive_line(raw_line: &Vec<char>) -> (r: Option<(String, String)>)
    ensures
        match directive_spec(raw_line@) {
            Some((u, p)) => r matches Some(x) && x.0@ == u && x.1@ == p,
            None => r is None,
        },
{
    let code = trim_start_chars(&before_comment_exec(raw_line));
    if !starts_with_chars(&code, "`timescale") {
        return None;
    }
    proof {
        reveal_strlit("`timescale");
    }
    let rest = trim_chars(&slice_chars(&code, 10, code.len()));
    assert(code@.subrange(10, code@.len() as int) == code@.skip(10));
    if rest.len() == 0 {
        return None;
    }
    let (first, second) = match find_char(&rest, '/') {
        Some(i) => (slice_chars(&rest, 0, i), Some(slice_chars(&rest, i + 1, rest.len()))),
        None => (slice_chars(&rest, 0, rest.len()), None),
    };
    proof {
        lemma_find_char(rest@, '/');
        assert(rest@.subrange(0, rest@.len() as int) == rest@);
        match find_char_spec(rest@, '/') {
            Some(i) => {
                assert(rest@.subrange(0, i) == rest@.take(i));
                assert(rest@.subrange(i + 1, rest@.len() as int) == rest@.skip(i + 1));
            },
            None => {},
        }
    }
    let unit = trim_chars(&first);
    if unit.len() == 0 {
        return None;
    }
    let prec = match second {
        Some(p) => {
            let t = trim_chars(&p);
            if t.len() > 0 {
                t
            } else {
                slice_chars(&unit, 0, unit.len())
            }
        },
        None => slice_chars(&unit, 0, unit.len()),
    };
    assert(unit@.subrange(0, unit@.len() as int) == unit@);
    Some((to_string(&unit), to_string(&prec)))
}

/// Whether a line's code opens a module (`module` / `macromodule`, alone or followed by a
/// space): the end of the preamble.
pub open spec fn is_module_line(code: Seq<char>) -> bool {
    ||| (code.len() >= 7 && code.take(7) == "module "@)
    ||| (code.len() >= 12 && code.take(12) == "macromodule "@)
    ||| code == "module"@
    ||| code == "macromodule"@
}

/// The first line of `s`: the text before the first `\n`, without a `\r` just before it; all
/// of `s` when it has no `\n` (as `str::lines`).
pub open spec fn first_line(s: Seq<char>) -> Seq<char> {
    match find_char_spec(s, '\n') {
        Some(i) => if i > 0 && s[i - 1] == '\r' {
            s.take(i - 1)
        } else {
            s.take(i)
        },
        None => s,
    }
}

/// The text after the first line of `s` (empty when `s` has no `\n`).
pub open spec fn after_first_line(s: Seq<char>) -> Seq<char> {
    match find_char_spec(s, '\n') {
        Some(i) => s.skip(i + 1),
        None => seq![],
    }
}

pub proof fn lemma_after_first_line_shorter(s: Seq<char>)
    requires
        s.len() > 0,
    ensures
        after_first_line(s).len() < s.len(),
{
    lemma_find_char(s, '\n');
}

/// The `` `timescale`` of a source's preamble: the first directive among the lines before the
/// first module line.
pub open spec fn preamble_timescale(s: Seq<char>) -> Option<(Seq<char>, Seq<char>)>
    decreases s.len(),
{
    if s.len() == 0 {
        None
    } else {
        let line = first_line(s);
        if is_module_line(line_code(line)) {
            None
        } else {
            match directive_spec(line) {
                Some(p) => Some(p),
                None => {
                    proof {
                        lemma_after_first_line_shorter(s);
                    }
                    preamble_timescale(after_first_line(s))
                },
            }
        }
    }
}

/// Whether `code` opens a module (see [`is_module_line`]).
fn is_module_line_exec(code: &Vec<char>) -> (b: bool)
    ensures
        b == is_module_line(code@),
{
    proof {
        reveal_strlit("module ");
        reveal_strlit("macromodule ");
    }
    starts_with_chars(code, "module ") || starts_with_chars(code, "macromodule ") || equals_chars(code, "module")
        || equals_chars(code, "macromodule")
}

/// The `` `timescale`` pair of a source's preamble (see [`preamble_timescale`]).
pub fn timescale_pair_from_source_preamble(src: &str) -> (r: Option<(String, String)>)
    ensures
        match preamble_timescale(src@) {
            Some((u, p)) => r matches Some(x) && x.0@ == u && x.1@ == p,
            None => r is None,
        },
{
    let all = chars_of(src);
    let mut pos: usize = 0;
    assert(all@.skip(0) == all@);
    while pos < all.len()
        invariant
            pos <= all.len(),
            all@ == src@,
            preamble_timescale(src@) == preamble_timescale(all@.skip(pos as int)),
        decreases all.len() - pos,
    {
        let ghost s = all@.skip(pos as int);
        let mut e = pos;
        while e < all.len() && all[e] != '\n'
            invariant
                pos <= e <= all.len(),
                forall|j: int| pos <= j < e ==> all@[j] != '\n',
            decreases all.len() - e,
        {
            e = e + 1;
        }
        proof {
            lemma_find_char(s, '\n');
            if e < all.len() {
                assert(s[e - pos] == '\n');
                if find_char_spec(s, '\n') != Some(e - pos) {
                    let k = find_char_spec(s, '\n')->0;
                    assert(s[k] == all@[pos + k]);
                }
                assert(find_char_spec(s, '\n') == Some(e - pos));
            } else {
                assert forall|j: int| 0 <= j < s.len() implies s[j] != '\n' by {
                    assert(s[j] == all@[pos + j]);
                }
                assert(find_char_spec(s, '\n') is None);
            }
        }
        let line_end = if e > pos && e < all.len() && all[e - 1] == '\r' {
            e - 1
        } else {
            e
        };
        let line = slice_chars(&all, pos, line_end);
        proof {
            if e < all.len() {
                if e > pos && all@[e - 1] == '\r' {
                    assert(s[e - pos - 1] == all@[e - 1]);
                    assert(line@ == s.take(e - pos - 1));
                } else {
                    assert(line@ == s.take(e - pos));
                }
            } else {
                assert(line@ == s);
            }
            assert(line@ == first_line(s));
        }
        let code = trim_start_chars(&before_comment_exec(&line));
        if is_module_line_exec(&code) {
            return None;
        }
        match parse_timescale_directive_line(&line) {
            Some(pair) => {
                return Some(pair);
            },
            None => {},
        }
        proof {
            if e < all.len() {
                assert(after_first_line(s) == all@.skip(e + 1));
            } else {
                assert(after_first_line(s) == all@.skip(all.len() as int));
            }
        }
        if e < all.len() {
            pos = e + 1;
        } else {
            pos = all.len();
        }
    }
    None
}

/// `(path, unit, precision)` of each source (`(path, text)`) whose preamble declares a
/// `` `timescale``, in order.
pub open spec fn timescale_hits(files: Seq<(String, String)>) -> Seq<(Seq<char>, Seq<char>, Seq<char>)>
    decreases files.len(),
{
    if files.len() == 0 {
        seq![]
    } else {
        let r = timescale_hits(files.drop_last());
        match preamble_timescale(files.last().1@) {
            Some((u, p)) => r.push((files.last().0@, u, p)),
            None => r,
        }
    }
}

/// A group of directives with the same key: key unit, key precision, the files.
pub type TsGroup = (Seq<char>, Seq<char>, Seq<Seq<char>>);

/// Index of the group with key `(u, p)`.
pub open spec fn group_index(gs: Seq<TsGroup>, u: Seq<char>, p: Seq<char>) -> Option<int>
    decreases gs.len(),
{
    if gs.len() == 0 {
        None
    } else {
        match group_index(gs.drop_last(), u, p) {
            Some(j) => Some(j),
            None => if gs.last().0 == u && gs.last().1 == p {
                Some(gs.len() - 1)
            } else {
                None
            },
        }
    }
}

/// The hits grouped by whitespace-free `(unit, precision)`, groups in order of first appearance,
/// files in order.
pub open spec fn groups_of(hs: Seq<(Seq<char>, Seq<char>, Seq<char>)>) -> Seq<TsGroup>
    decreases hs.len(),
{
    if hs.len() == 0 {
        seq![]
    } else {
        let gs = groups_of(hs.drop_last());
        let h = hs.last();
        let u = remove_ws_spec(h.1);
        let p = remove_ws_spec(h.2);
        match group_index(gs, u, p) {
            Some(j) => gs.update(j, (gs[j].0, gs[j].1, gs[j].2.push(h.0))),
            None => gs.push((u, p, seq![h.0])),
        }
    }
}

/// `ps` joined with `sep` between consecutive items.
pub open spec fn join_spec(ps: Seq<Seq<char>>, sep: Seq<char>) -> Seq<char>
    decreases ps.len(),
{
    if ps.len() == 0 {
        seq![]
    } else if ps.len() == 1 {
        ps[0]
    } else {
        join_spec(ps.drop_last(), sep) + sep + ps.last()
    }
}

/// One line of the conflict message: `` `timescale u/p` in f1, f2``.
pub open spec fn group_text(g: TsGroup) -> Seq<char> {
    "`timescale "@ + g.0 + seq!['/'] + g.1 + "` in "@ + join_spec(g.2, ", "@)
}

/// The texts of `gs`, in order.
pub open spec fn group_texts(gs: Seq<TsGroup>) -> Seq<Seq<char>>
    decreases gs.len(),
{
    if gs.len() == 0 {
        seq![]
    } else {
        group_texts(gs.drop_last()).push(group_text(gs.last()))
    }
}

/// `ts` sorted by code point (without duplicates).
pub open spec fn sorted_texts(ts: Seq<Seq<char>>) -> Seq<Seq<char>>
    decreases ts.len(),
{
    if ts.len() == 0 {
        seq![]
    } else {
        insert_sorted(sorted_texts(ts.drop_last()), ts.last())
    }
}

/// The error for directives that disagree: one sorted line per group.
pub open spec fn conflict_message(gs: Seq<TsGroup>) -> Seq<char> {
    "conflicting `` `timescale`` directives (must match project-wide):\n"@ + join_spec(
        sorted_texts(group_texts(gs)),
        seq!['\n'],
    )
}

/// Hits exist exactly when groups do.
pub proof fn lemma_groups_nonempty(hs: Seq<(Seq<char>, Seq<char>, Seq<char>)>)
    ensures
        hs.len() > 0 <==> groups_of(hs).len() > 0,
    decreases hs.len(),
{
    if hs.len() > 0 {
        let t = hs.drop_last();
        lemma_groups_nonempty(t);
        lemma_group_index_range(groups_of(t), remove_ws_spec(hs.last().1), remove_ws_spec(hs.last().2));
    }
}

/// With a single group, it holds the files of all hits, in order.
pub proof fn lemma_single_group(hs: Seq<(Seq<char>, Seq<char>, Seq<char>)>)
    requires
        groups_of(hs).len() == 1,
    ensures
        groups_of(hs)[0].2 == hs.map_values(|h: (Seq<char>, Seq<char>, Seq<char>)| h.0),
    decreases hs.len(),
{
    let t = hs.drop_last();
    let gs = groups_of(t);
    lemma_groups_nonempty(t);
    if t.len() == 0 {
        assert(hs.map_values(|h: (Seq<char>, Seq<char>, Seq<char>)| h.0) =~= seq![hs.last().0]);
    } else {
        let h = hs.last();
        match group_index(gs, remove_ws_spec(h.1), remove_ws_spec(h.2)) {
            Some(j) => {
                lemma_group_index_range(gs, remove_ws_spec(h.1), remove_ws_spec(h.2));
                lemma_single_group(t);
                assert(hs.map_values(|h: (Seq<char>, Seq<char>, Seq<char>)| h.0) =~= t.map_values(
                    |h: (Seq<char>, Seq<char>, Seq<char>)| h.0,
                ).push(h.0));
            },
            None => {},
        }
    }
}

proof fn lemma_group_index_range(gs: Seq<TsGroup>, u: Seq<char>, p: Seq<char>)
    ensures
        match group_index(gs, u, p) {
            Some(j) => 0 <= j < gs.len() && gs[j].0 == u && gs[j].1 == p && forall|k: int|
                0 <= k < j ==> !((#[trigger] gs[k]).0 == u && gs[k].1 == p),
            None => forall|k: int| 0 <= k < gs.len() ==> !((#[trigger] gs[k]).0 == u && gs[k].1 == p),
        },
    decreases gs.len(),
{
    if gs.len() > 0 {
        lemma_group_index_range(gs.drop_last(), u, p);
        assert forall|k: int| 0 <= k < gs.len() - 1 implies gs[k] == gs.drop_last()[k] by {}
    }
}

/// Exec groups viewed as [`TsGroup`]s.
pub open spec fn groups_view(gs: Seq<(String, String, Vec<String>)>) -> Seq<TsGroup> {
    gs.map_values(|g: (String, String, Vec<String>)| (g.0@, g.1@, views(g.2@)))
}

/// `ps` joined with `sep`.
fn join_strings(ps: &Vec<String>, sep: &str) -> (r: String)
    ensures
        r@ == join_spec(views(ps@), sep@),
{
    let mut r = String::new();
    let mut i: usize = 0;
    while i < ps.len()
        invariant
            i <= ps.len(),
            r@ == join_spec(views(ps@.take(i as int)), sep@),
        decreases ps.len() - i,
    {
        assert(views(ps@.take(i + 1)).drop_last() == views(ps@.take(i as int)));
        if i > 0 {
            r.append(sep);
        } else {
            assert(views(ps@.take(1)).len() == 1);
        }
        r.append(ps[i].as_str());
        i = i + 1;
    }
    assert(ps@.take(ps.len() as int) == ps@);
    r
}

/// The project `` `timescale`` of the readable sources `files` (`(path, text)`, in input
/// order): the default `1ns / 1ns` when no preamble declares one; an error listing the groups
/// when the declarations disagree (compared without whitespace); otherwise the first
/// declaration's unit and precision, its file, and every declaring file.
pub fn scan_timescale_sources(files: &Vec<(String, String)>) -> (r: Result<TimescaleScan, String>)
    ensures
        ({
            let hs = timescale_hits(files@);
            let gs = groups_of(hs);
            &&& hs.len() == 0 ==> (r matches Ok(s) && s.declaration_path is None && s.time_unit@ == "1ns"@
                && s.time_precision@ == "1ns"@ && s.timescale_source_files@.len() == 0)
            &&& gs.len() == 1 ==> (r matches Ok(s) && opt_view(s.declaration_path) == Some(hs[0].0) && s.time_unit@
                == hs[0].1 && s.time_precision@ == hs[0].2 && views(s.timescale_source_files@) == hs.map_values(
                |h: (Seq<char>, Seq<char>, Seq<char>)| h.0,
            ))
            &&& gs.len() > 1 ==> (r matches Err(e) && e@ == conflict_message(gs))
        }),
{
    let mut hits: Vec<(String, String, String)> = Vec::new();
    let mut i: usize = 0;
    while i < files.len()
        invariant
            i <= files.len(),
            hits@.map_values(|h: (String, String, String)| (h.0@, h.1@, h.2@)) == timescale_hits(files@.take(i as int)),
        decreases files.len() - i,
    {
        assert(files@.take(i + 1).drop_last() == files@.take(i as int));
        let ghost before = hits@;
        match timescale_pair_from_source_preamble(files[i].1.as_str()) {
            Some((u, p)) => {
                hits.push((files[i].0.clone(), u, p));
                assert(hits@.map_values(|h: (String, String, String)| (h.0@, h.1@, h.2@)) =~= before.map_values(
                    |h: (String, String, String)| (h.0@, h.1@, h.2@),
                ).push((files@[i as int].0@, hits@.last().1@, hits@.last().2@)));
            },
            None => {},
        }
        i = i + 1;
    }
    assert(files@.take(files.len() as int) == files@);
    let ghost hs = timescale_hits(files@);
    proof {
        lemma_groups_nonempty(hs);
    }
    if hits.len() == 0 {
        return Ok(TimescaleScan::default_timescale());
    }
    let mut groups: Vec<(String, String, Vec<String>)> = Vec::new();
    let mut h: usize = 0;
    while h < hits.len()
        invariant
            h <= hits.len(),
            hits@.map_values(|x: (String, String, String)| (x.0@, x.1@, x.2@)) == hs,
            groups_view(groups@) == groups_of(hs.take(h as int)),
        decreases hits.len() - h,
    {
        assert(hs.take(h + 1).drop_last() == hs.take(h as int));
        assert(hs[h as int] == (hits@[h as int].0@, hits@[h as int].1@, hits@[h as int].2@));
        let (ku, kp) = normalize_timescale_tokens(hits[h].1.as_str(), hits[h].2.as_str());
        let ghost gs0 = groups_view(groups@);
        proof {
            lemma_group_index_range(gs0, ku@, kp@);
        }
        let mut j: usize = 0;
        while j < groups.len() && !(groups[j].0 == ku && groups[j].1 == kp)
            invariant
                j <= groups.len(),
                gs0 == groups_view(groups@),
                forall|k: int| 0 <= k < j ==> !((#[trigger] gs0[k]).0 == ku@ && gs0[k].1 == kp@),
            decreases groups.len() - j,
        {
            j = j + 1;
        }
        if j < groups.len() {
            proof {
                assert(gs0[j as int].0 == ku@ && gs0[j as int].1 == kp@);
                assert(group_index(gs0, ku@, kp@) == Some(j as int));
            }
            let ghost before = groups@;
            let mut g = groups.remove(j);
            let p = hits[h].0.clone();
            let ghost g0 = g;
            g.2.push(p);
            assert(views(g.2@) =~= views(g0.2@).push(p@));
            groups.insert(j, g);
            assert(groups@ =~= before.update(j as int, g));
            assert(groups_view(groups@) =~= gs0.update(j as int, (gs0[j as int].0, gs0[j as int].1, gs0[j as int].2.push(hs[h as int].0))));
        } else {
            assert(group_index(gs0, ku@, kp@) is None);
            let mut ps: Vec<String> = Vec::new();
            ps.push(hits[h].0.clone());
            assert(views(ps@) =~= seq![hs[h as int].0]);
            groups.push((ku, kp, ps));
            assert(groups_view(groups@) =~= gs0.push((remove_ws_spec(hs[h as int].1), remove_ws_spec(hs[h as int].2), seq![hs[h as int].0])));
        }
        h = h + 1;
    }
    assert(hs.take(hits.len() as int) == hs);
    let ghost gs = groups_of(hs);
    if groups.len() > 1 {
        let mut texts: Vec<String> = Vec::new();
        let mut g: usize = 0;
        while g < groups.len()
            invariant
                g <= groups.len(),
                groups_view(groups@) == gs,
                views(texts@) == sorted_texts(group_texts(gs.take(g as int))),
            decreases groups.len() - g,
        {
            assert(gs.take(g + 1).drop_last() == gs.take(g as int));
            let mut t = "`timescale ".to_owned();
            t.append(groups[g].0.as_str());
            crate::strutil::string_push(&mut t, '/');
            t.append(groups[g].1.as_str());
            t.append("` in ");
            let files_text = join_strings(&groups[g].2, ", ");
            t.append(files_text.as_str());
            assert(t@ =~= group_text(gs[g as int]));
            insert_sorted_path(&mut texts, &t);
            assert(group_texts(gs.take(g + 1)) == group_texts(gs.take(g as int)).push(group_text(gs[g as int])));
            assert(group_texts(gs.take(g as int)).push(group_text(gs[g as int])).drop_last() == group_texts(
                gs.take(g as int),
            ));
            g = g + 1;
        }
        assert(gs.take(groups.len() as int) == gs);
        let mut msg = "conflicting `` `timescale`` directives (must match project-wide):\n".to_owned();
        let body = join_strings(&texts, "\n");
        proof {
            reveal_strlit("\n");
            assert("\n"@ =~= seq!['\n']);
        }
        msg.append(body.as_str());
        assert(views(texts@) == sorted_texts(group_texts(gs)));
        return Err(msg);
    }
    proof {
        lemma_single_group(hs);
    }
    let first_path = hits[0].0.clone();
    let unit = hits[0].1.clone();
    let prec = hits[0].2.clone();
    let (_, _, paths) = groups.remove(0);
    Ok(TimescaleScan {
        declaration_path: Some(first_path),
        time_unit: unit,
        time_precision: prec,
        timescale_source_files: paths,
    })
}

/// `#delay` units that `initial` blocks of the modules from `path` add up to (rounded up,
/// saturating), as [`sum_initial_delay_literals_for_source_file`] computes it.
pub open spec fn file_delay_units(modules: Seq<IrModule>, path: Seq<char>) -> nat {
    let d = file_delay(modules, path);
    if d.den == 0 {
        0
    } else if ceil_div_spec(d.num as nat, d.den as nat) > usize::MAX {
        usize::MAX as nat
    } else {
        ceil_div_spec(d.num as nat, d.den as nat)
    }
}

/// Sum of [`file_delay_units`] over `files`.
pub open spec fn files_delay_units(modules: Seq<IrModule>, files: Seq<String>) -> nat
    decreases files.len(),
{
    if files.len() == 0 {
        0
    } else {
        files_delay_units(modules, files.drop_last()) + file_delay_units(modules, files.last()@)
    }
}

/// Sum of the `#delay` units of `initial` blocks over the listed source files.
pub fn sum_initial_delays_for_source_files(project: &IrProject, files: &Vec<String>) -> (r: usize)
    requires
        files_delay_units(project.modules@, files@) <= usize::MAX,
    ensures
        r == files_delay_units(project.modules@, files@),
{
    let mut total: usize = 0;
    let mut i: usize = 0;
    while i < files.len()
        invariant
            i <= files.len(),
            total == files_delay_units(project.modules@, files@.take(i as int)),
            files_delay_units(project.modules@, files@) <= usize::MAX,
        decreases files.len() - i,
    {
        assert(files@.take(i + 1).drop_last() == files@.take(i as int));
        proof {
            lemma_files_delay_prefix(project.modules@, files@, i + 1);
        }
        let d = sum_initial_delay_literals_for_source_file(project, files[i].as_str());
        total = total + d;
        i = i + 1;
    }
    assert(files@.take(files.len() as int) == files@);
    total
}

proof fn lemma_files_delay_prefix(modules: Seq<IrModule>, files: Seq<String>, n: int)
    requires
        0 <= n <= files.len(),
    ensures
        files_delay_units(modules, files.take(n)) <= files_delay_units(modules, files),
    decreases files.len() - n,
{
    if n < files.len() {
        lemma_files_delay_prefix(modules, files, n + 1);
        assert(files.take(n + 1).drop_last() == files.take(n));
    } else {
        assert(files.take(n) == files);
    }
}

/// Whether the `#delay` sum over `files` fits in `usize`.
pub fn initial_delays_fit(project: &IrProject, files: &Vec<String>) -> (b: bool)
    ensures
        b == (files_delay_units(project.modules@, files@) <= usize::MAX),
{
    let mut total: u128 = 0;
    let mut i: usize = 0;
    while i < files.len()
        invariant
            i <= files.len(),
            total == files_delay_units(project.modules@, files@.take(i as int)),
            total <= usize::MAX,
        decreases files.len() - i,
    {
        assert(files@.take(i + 1).drop_last() == files@.take(i as int));
        let d = sum_initial_delay_literals_for_source_file(project, files[i].as_str());
        total = total + d as u128;
        if total > usize::MAX as u128 {
            proof {
                lemma_files_delay_prefix(project.modules@, files@, i + 1);
            }
            return false;
        }
        i = i + 1;
    }
    assert(files@.take(files.len() as int) == files@);
    true
}

/// Clock periods that cover `delay_sum` time units with half-period `clock_half_period` (at
/// least 1) on a grid of one step per unit: 100 when there are no delays.
pub fn num_cycles_from_initial_delay_sum(delay_sum: usize, clock_half_period: usize) -> (r: usize)
    ensures
        r == cycles_fine_spec(delay_sum as nat, 1, if clock_half_period < 1 { 1 } else { clock_half_period as nat }),
{
    let h = if clock_half_period < 1 { 1 } else { clock_half_period };
    num_cycles_from_initial_delay_sum_fine(delay_sum, 1, h)
}

/// Some module of `modules` instantiates a module named `name`.
pub open spec fn is_instantiated(modules: Seq<IrModule>, name: Seq<char>) -> bool {
    exists|m: int, i: int|
        0 <= m < modules.len() && 0 <= i < modules[m].instances@.len() && (#[trigger] modules[m].instances@[i]).module_name@
            == name
}

/// Whether some module instantiates a module named `name`.
fn instantiated_exec(modules: &Vec<IrModule>, name: &String) -> (b: bool)
    ensures
        b == is_instantiated(modules@, name@),
{
    let mut m: usize = 0;
    while m < modules.len()
        invariant
            m <= modules.len(),
            forall|a: int, i: int|
                0 <= a < m && 0 <= i < modules@[a].instances@.len() ==> (#[trigger] modules@[a].instances@[i]).module_name@
                    != name@,
        decreases modules.len() - m,
    {
        let insts = &modules[m].instances;
        let mut i: usize = 0;
        while i < insts.len()
            invariant
                i <= insts.len(),
                m < modules.len(),
                insts@ == modules@[m as int].instances@,
                forall|a: int, k: int|
                    0 <= a < m && 0 <= k < modules@[a].instances@.len() ==> (#[trigger] modules@[a].instances@[k]).module_name@
                        != name@,
                forall|k: int| 0 <= k < i ==> (#[trigger] insts@[k]).module_name@ != name@,
            decreases insts.len() - i,
        {
            if insts[i].module_name == *name {
                assert(modules@[m as int].instances@[i as int].module_name@ == name@);
                return true;
            }
            i = i + 1;
        }
        m = m + 1;
    }
    false
}

/// Index of the first module among `modules[k..]` that no module instantiates and, when
/// `needs_initial`, has an `initial` block.
pub open spec fn first_root_from(modules: Seq<IrModule>, k: int, needs_initial: bool) -> Option<int>
    decreases modules.len() - k,
{
    if k < 0 || k >= modules.len() {
        None
    } else if !is_instantiated(modules, modules[k].name@) && (!needs_initial || modules[k].initial_blocks@.len() > 0) {
        Some(k)
    } else {
        first_root_from(modules, k + 1, needs_initial)
    }
}

/// The module to simulate: the first module that no module instantiates and that has an
/// `initial` block (a testbench), else the first module that no module instantiates; `None`
/// when every module is instantiated.
pub open spec fn top_choice(modules: Seq<IrModule>) -> Option<int> {
    match first_root_from(modules, 0, true) {
        Some(i) => Some(i),
        None => first_root_from(modules, 0, false),
    }
}

/// First module from `k` on passing [`first_root_from`]'s test.
fn first_root_exec(modules: &Vec<IrModule>, needs_initial: bool) -> (r: Option<usize>)
    ensures
        match r {
            Some(i) => first_root_from(modules@, 0, needs_initial) == Some(i as int),
            None => first_root_from(modules@, 0, needs_initial) is None,
        },
{
    let mut k: usize = 0;
    while k < modules.len()
        invariant
            k <= modules.len(),
            first_root_from(modules@, 0, needs_initial) == first_root_from(modules@, k as int, needs_initial),
        decreases modules.len() - k,
    {
        if !instantiated_exec(modules, &modules[k].name) && (!needs_initial || modules[k].initial_blocks.len() > 0) {
            return Some(k);
        }
        k = k + 1;
    }
    None
}

/// The name of the module to simulate (see [`top_choice`]).
pub fn pick_top_module(project: &IrProject) -> (r: Option<String>)
    ensures
        match top_choice(project.modules@) {
            Some(i) => r matches Some(n) && n@ == project.modules@[i].name@,
            None => r is None,
        },
        top_choice(project.modules@) matches Some(i) ==> 0 <= i < project.modules@.len(),
{
    proof {
        lemma_first_root_range(project.modules@, 0, true);
        lemma_first_root_range(project.modules@, 0, false);
    }
    match first_root_exec(&project.modules, true) {
        Some(i) => {
            return Some(project.modules[i].name.clone());
        },
        None => {},
    }
    match first_root_exec(&project.modules, false) {
        Some(i) => Some(project.modules[i].name.clone()),
        None => None,
    }
}

proof fn lemma_first_root_range(modules: Seq<IrModule>, k: int, needs_initial: bool)
    ensures
        first_root_from(modules, k, needs_initial) matches Some(i) ==> k <= i < modules.len(),
    decreases modules.len() - k,
{
    if 0 <= k < modules.len() {
        lemma_first_root_range(modules, k + 1, needs_initial);
    }
}


/// One Verilog source as the run reads it: its path, its text, and the canonical form of the
/// path where the file system gives one.
#[derive(Debug, Clone)]
pub struct SourceText {
    pub path: String,
    pub content: String,
    pub canonical: Option<String>,
}


/// The lines of the errors among `ds`, in order, each followed by a newline.
pub open spec fn error_lines(ds: Seq<Diagnostic>) -> Seq<char>
    decreases ds.len(),
{
    if ds.len() == 0 {
        seq![]
    } else {
        error_lines(ds.drop_last()) + if ds.last().severity == Severity::Error {
            diagnostic_line_spec(ds.last()) + "\n"@
        } else {
            seq![]
        }
    }
}

/// The message of a failed compile: a heading and the error lines, trailing whitespace trimmed.
pub open spec fn compile_failed_message(ds: Seq<Diagnostic>) -> Seq<char> {
    trim_end_spec("Verilog compile failed:\n"@ + error_lines(ds))
}

/// The message of a failed compile, when some diagnostic of `ds` is an error.
pub fn compile_failure_message(ds: &Vec<Diagnostic>) -> (r: Option<String>)
    ensures
        r is Some <==> has_error(ds@),
        r matches Some(m) ==> m@ == compile_failed_message(ds@),
{
    let mut msg = "Verilog compile failed:\n".to_owned();
    let mut found = false;
    let mut i: usize = 0;
    while i < ds.len()
        invariant
            i <= ds.len(),
            msg@ == "Verilog compile failed:\n"@ + error_lines(ds@.take(i as int)),
            found == has_error(ds@.take(i as int)),
        decreases ds.len() - i,
    {
        let ghost t = ds@.take(i + 1);
        assert(t.drop_last() =~= ds@.take(i as int));
        assert(t.last() == ds@[i as int]);
        if ds[i].severity == Severity::Error {
            let line = ds[i].format_line();
            msg.append(line.as_str());
            msg.append("\n");
            found = true;
            assert(t[i as int] == ds@[i as int]);
        } else {
            assert(has_error(t) == has_error(ds@.take(i as int))) by {
                if has_error(t) {
                    let k = choose|k: int| 0 <= k < t.len() && (#[trigger] t[k]).severity == Severity::Error;
                    assert(ds@.take(i as int)[k] == t[k]);
                }
                if has_error(ds@.take(i as int)) {
                    let k = choose|k: int| 0 <= k < i && (#[trigger] ds@.take(i as int)[k]).severity == Severity::Error;
                    assert(t[k] == ds@.take(i as int)[k]);
                }
            }
        }
        i = i + 1;
    }
    assert(ds@.take(ds.len() as int) =~= ds@);
    if found {
        let trimmed = trim_end_chars(&chars_of(msg.as_str()));
        Some(string_from_chars(&trimmed))
    } else {
        None
    }
}

/// Source `s` is the file `top`: the same path, or the same canonical path.
pub open spec fn is_same_file(s: SourceText, top: Seq<char>, top_canonical: Option<String>) -> bool {
    s.path@ == top || (s.canonical is Some && top_canonical is Some && s.canonical->0@ == top_canonical->0@)
}

/// The canonical path recorded for the first source at `path`.
pub open spec fn canonical_of(sources: Seq<SourceText>, path: Seq<char>) -> Option<String>
    decreases sources.len(),
{
    if sources.len() == 0 {
        None
    } else if sources[0].path@ == path {
        sources[0].canonical
    } else {
        canonical_of(sources.drop_first(), path)
    }
}

/// The paths of the sources that are not the file `top`, in order.
pub open spec fn other_source_paths(sources: Seq<SourceText>, top: Seq<char>, top_canonical: Option<String>) -> Seq<Seq<char>>
    decreases sources.len(),
{
    if sources.len() == 0 {
        seq![]
    } else {
        other_source_paths(sources.drop_last(), top, top_canonical) + if is_same_file(sources.last(), top, top_canonical) {
            seq![]
        } else {
            seq![sources.last().path@]
        }
    }
}

/// The canonical path recorded for the first source at `path`.
fn find_canonical(sources: &Vec<SourceText>, path: &String) -> (r: Option<String>)
    ensures
        r == canonical_of(sources@, path@),
{
    let mut i: usize = 0;
    assert(sources@.skip(0) =~= sources@);
    while i < sources.len()
        invariant
            i <= sources.len(),
            canonical_of(sources@, path@) == canonical_of(sources@.skip(i as int), path@),
        decreases sources.len() - i,
    {
        assert(sources@.skip(i as int)[0] == sources@[i as int]);
        assert(sources@.skip(i as int).drop_first() =~= sources@.skip(i + 1));
        if sources[i].path == *path {
            return match &sources[i].canonical {
                Some(c) => Some(c.clone()),
                None => None,
            };
        }
        i = i + 1;
    }
    None
}

/// The paths of the sources that are not the file `top`, in order.
fn other_sources(sources: &Vec<SourceText>, top: &String, top_canonical: &Option<String>) -> (r: Vec<String>)
    ensures
        views(r@) == other_source_paths(sources@, top@, *top_canonical),
{
    let mut out: Vec<String> = Vec::new();
    let mut i: usize = 0;
    while i < sources.len()
        invariant
            i <= sources.len(),
            views(out@) == other_source_paths(sources@.take(i as int), top@, *top_canonical),
        decreases sources.len() - i,
    {
        let ghost t = sources@.take(i + 1);
        assert(t.drop_last() =~= sources@.take(i as int));
        assert(t.last() == sources@[i as int]);
        let s = &sources[i];
        let same = if s.path == *top {
            true
        } else {
            match (&s.canonical, top_canonical) {
                (Some(a), Some(b)) => *a == *b,
                _ => false,
            }
        };
        if !same {
            let ghost before = out@;
            out.push(s.path.clone());
            assert(views(out@) =~= views(before).push(s.path@));
        }
        i = i + 1;
    }
    assert(sources@.take(sources.len() as int) =~= sources@);
    out
}

/// The sources as (path, text) pairs.
pub open spec fn source_pairs(sources: Seq<SourceText>) -> Seq<(String, String)> {
    sources.map_values(|s: SourceText| (s.path, s.content))
}

/// The sources as (path, text) pairs.
fn source_pair_list(sources: &Vec<SourceText>) -> (r: Vec<(String, String)>)
    ensures
        r@ == source_pairs(sources@),
{
    let mut out: Vec<(String, String)> = Vec::new();
    let mut i: usize = 0;
    while i < sources.len()
        invariant
            i <= sources.len(),
            out@ == source_pairs(sources@.take(i as int)),
        decreases sources.len() - i,
    {
        out.push((sources[i].path.clone(), sources[i].content.clone()));
        assert(out@ =~= source_pairs(sources@.take(i + 1)));
        i = i + 1;
    }
    assert(sources@.take(sources.len() as int) =~= sources@);
    out
}

/// The paths of the sources.
fn source_path_list(sources: &Vec<SourceText>) -> (r: Vec<String>)
    ensures
        views(r@) == sources@.map_values(|s: SourceText| s.path@),
{
    let mut out: Vec<String> = Vec::new();
    let mut i: usize = 0;
    while i < sources.len()
        invariant
            i <= sources.len(),
            out@.len() == i,
            forall|k: int| 0 <= k < i ==> (#[trigger] out@[k])@ == sources@[k].path@,
        decreases sources.len() - i,
    {
        out.push(sources[i].path.clone());
        i = i + 1;
    }
    assert(views(out@) =~= sources@.map_values(|s: SourceText| s.path@));
    out
}

/// Sum of [`file_delay_units`] over the paths `paths`.
pub open spec fn paths_delay_units(modules: Seq<IrModule>, paths: Seq<Seq<char>>) -> nat
    decreases paths.len(),
{
    if paths.len() == 0 {
        0
    } else {
        paths_delay_units(modules, paths.drop_last()) + file_delay_units(modules, paths.last())
    }
}

/// The sum over files depends on their paths only.
proof fn lemma_files_paths_delay(modules: Seq<IrModule>, files: Seq<String>)
    ensures
        files_delay_units(modules, files) == paths_delay_units(modules, views(files)),
    decreases files.len(),
{
    if files.len() > 0 {
        lemma_files_paths_delay(modules, files.drop_last());
        assert(views(files).drop_last() =~= views(files.drop_last()));
    }
}

/// Modules that agree on paths and `initial` blocks give every file the same delay.
proof fn lemma_file_delay_same(a: Seq<IrModule>, b: Seq<IrModule>, path: Seq<char>)
    requires
        a.len() == b.len(),
        forall|i: int| 0 <= i < a.len() ==> (#[trigger] a[i]).path == b[i].path && a[i].initial_blocks == b[i].initial_blocks,
    ensures
        file_delay(a, path) == file_delay(b, path),
    decreases a.len(),
{
    if a.len() > 0 {
        lemma_file_delay_same(a.drop_last(), b.drop_last(), path);
        assert(a.last() == a[a.len() - 1]);
    }
}

/// Modules that agree on paths and `initial` blocks give every list of files the same sum.
proof fn lemma_paths_delay_same(a: Seq<IrModule>, b: Seq<IrModule>, paths: Seq<Seq<char>>)
    requires
        a.len() == b.len(),
        forall|i: int| 0 <= i < a.len() ==> (#[trigger] a[i]).path == b[i].path && a[i].initial_blocks == b[i].initial_blocks,
    ensures
        paths_delay_units(a, paths) == paths_delay_units(b, paths),
    decreases paths.len(),
{
    if paths.len() > 0 {
        lemma_paths_delay_same(a, b, paths.drop_last());
        lemma_file_delay_same(a, b, paths.last());
    }
}

/// Index of the first module named `name` (`modules.len()` when there is none).
pub open spec fn first_named(modules: Seq<IrModule>, name: Seq<char>) -> int
    decreases modules.len(),
{
    if modules.len() == 0 {
        0
    } else if modules[0].name@ == name {
        0
    } else {
        1 + first_named(modules.drop_first(), name)
    }
}

/// The first index holding `name` is [`first_named`].
proof fn lemma_first_named(modules: Seq<IrModule>, name: Seq<char>, i: int)
    requires
        0 <= i < modules.len(),
        modules[i].name@ == name,
        forall|j: int| 0 <= j < i ==> (#[trigger] modules[j]).name@ != name,
    ensures
        first_named(modules, name) == i,
    decreases i,
{
    if i > 0 {
        let d = modules.drop_first();
        assert forall|j: int| 0 <= j < i - 1 implies (#[trigger] d[j]).name@ != name by {
            assert(d[j] == modules[j + 1]);
        }
        assert(d[i - 1] == modules[i]);
        assert(modules[0].name@ != name);
        lemma_first_named(d, name, i - 1);
    }
}

/// Index of the first module named `name`.
fn first_module_named(modules: &Vec<IrModule>, name: &String) -> (r: Option<usize>)
    ensures
        match r {
            Some(i) => i < modules@.len() && i == first_named(modules@, name@) && modules@[i as int].name@ == name@,
            None => forall|j: int| 0 <= j < modules@.len() ==> (#[trigger] modules@[j]).name@ != name@,
        },
{
    let mut i: usize = 0;
    while i < modules.len()
        invariant
            i <= modules.len(),
            forall|j: int| 0 <= j < i ==> (#[trigger] modules@[j]).name@ != name@,
        decreases modules.len() - i,
    {
        if modules[i].name == *name {
            proof {
                lemma_first_named(modules@, name@, i as int);
            }
            return Some(i);
        }
        i = i + 1;
    }
    None
}

/// The files whose `#delay` literals size a run: every source with an explicit time base;
/// else those whose preamble declares the `` `timescale`` (the top module's file when none
/// does).
pub open spec fn run_delay_paths(sources: Seq<SourceText>, options: CsVerilogOptions, top_path: Seq<char>) -> Seq<Seq<char>> {
    match options.timescale {
        Some(_) => sources.map_values(|s: SourceText| s.path@),
        None => {
            let hs = timescale_hits(source_pairs(sources));
            if hs.len() == 0 {
                seq![top_path]
            } else {
                hs.map_values(|h: (Seq<char>, Seq<char>, Seq<char>)| h.0)
            }
        },
    }
}

/// How a run of `project` (built from `sources`) ends: `None` when it produces a VCD; else
/// the error, with its text (for refused connections, `None`: the text is that of the first
/// refused instance, see [`first_refusal_message`]). In order: errors among the diagnostics; no
/// module; no top module; an instance whose connections are refused; an output path that is
/// not text; conflicting `` `timescale`` directives (without an explicit time base); `#delay`
/// units that overflow.
pub open spec fn pipeline_error(
    sources: Seq<SourceText>,
    project: IrProject,
    output_display: Option<String>,
    options: CsVerilogOptions,
) -> Option<Option<Seq<char>>> {
    let ms = project.modules@;
    if has_error(project.diagnostics@) {
        Some(Some(compile_failed_message(project.diagnostics@)))
    } else if ms.len() == 0 {
        Some(Some("no modules found in input files"@))
    } else if top_choice(ms) is None {
        Some(Some("no top-level module found"@))
    } else if exists|mi: int, j: int|
        0 <= mi < ms.len() && 0 <= j < ms[mi].instances@.len() && #[trigger] conn_refused(ms, mi, j) {
        Some(None)
    } else if output_display is None {
        Some(Some("output path is not valid UTF-8"@))
    } else if options.timescale is None && groups_of(timescale_hits(source_pairs(sources))).len() > 1 {
        Some(Some(conflict_message(groups_of(timescale_hits(source_pairs(sources))))))
    } else if paths_delay_units(
        ms,
        run_delay_paths(sources, options, ms[first_named(ms, ms[top_choice(ms)->0].name@)].path@),
    ) > usize::MAX {
        Some(Some("attempt to add with overflow"@))
    } else {
        None
    }
}

/// `r` is the outcome `e` describes.
pub open spec fn outcome_matches(e: Option<Option<Seq<char>>>, r: Result<String, String>) -> bool {
    match e {
        None => r is Ok,
        Some(None) => r is Err,
        Some(Some(m)) => r matches Err(x) && x@ == m,
    }
}

/// The settings of a run: top module, cycle count (given, or derived from the `#delay` sum),
/// time base, clock half-period (5 when not given) and the `#delay` sum when positive.
pub open spec fn run_config_ok(
    c: SimConfig,
    top: Seq<char>,
    unit: Seq<char>,
    prec: Seq<char>,
    delay_sum: usize,
    options: CsVerilogOptions,
) -> bool {
    let explicit = options.clock_half_period is Some;
    let half: usize = match options.clock_half_period {
        Some(h) => h,
        None => 5,
    };
    let k = unit_per_precision_spec(unit, prec);
    let h_fine = half_period_fine_spec(half, k, explicit, unit);
    &&& c.top_module@ == top
    &&& c.timescale@ == unit
    &&& c.timescale_precision@ == prec
    &&& c.clock_half_period == half
    &&& c.clock_half_period_is_explicit == explicit
    &&& c.initial_delay_sum_units == if delay_sum > 0 { Some(delay_sum) } else { None::<usize> }
    &&& c.num_cycles == match options.num_cycles {
        Some(n) => n as nat,
        None => cycles_fine_spec(delay_sum as nat, k as nat, h_fine as nat),
    }
}

/// The settings of a run (see [`run_config_ok`]) with the metadata `meta`.
pub fn csverilog_config(
    top: String,
    unit: String,
    prec: String,
    delay_sum: usize,
    options: &CsVerilogOptions,
    meta: VcdRunMeta,
) -> (c: SimConfig)
    ensures
        run_config_ok(c, top@, unit@, prec@, delay_sum, *options),
        c.vcd_meta == Some(meta),
{
    let explicit = options.clock_half_period.is_some();
    let half: usize = match options.clock_half_period {
        Some(h) => h,
        None => 5,
    };
    let k = unit_per_precision_ratio(unit.as_str(), prec.as_str());
    let h_fine = clock_half_period_fine_ticks(half, k, explicit, unit.as_str());
    let num_cycles = match options.num_cycles {
        Some(n) => n,
        None => num_cycles_from_initial_delay_sum_fine(delay_sum, k, h_fine),
    };
    SimConfig {
        top_module: top,
        num_cycles,
        timescale: unit,
        timescale_precision: prec,
        clock_half_period: half,
        clock_half_period_is_explicit: explicit,
        initial_delay_sum_units: if delay_sum > 0 { Some(delay_sum) } else { None },
        vcd_meta: Some(meta),
    }
}

/// The time unit and precision of a run: an explicit time base (trimmed) for both; else the
/// sources' `` `timescale`` (`1ns` / `1ns` when none declares one).
pub open spec fn run_time_base(sources: Seq<SourceText>, options: CsVerilogOptions) -> (Seq<char>, Seq<char>) {
    match options.timescale {
        Some(t) => (trim_spec(t@), trim_spec(t@)),
        None => {
            let hs = timescale_hits(source_pairs(sources));
            if hs.len() == 0 {
                ("1ns"@, "1ns"@)
            } else {
                (hs[0].1, hs[0].2)
            }
        },
    }
}

/// The run metadata of the pipeline: the top module's file, the other sources, the command
/// line, the output path and the working directory.
pub open spec fn run_meta_ok(
    m: VcdRunMeta,
    sources: Seq<SourceText>,
    top_path: Seq<char>,
    command_line: Seq<char>,
    output: Seq<char>,
    working_directory: Option<String>,
) -> bool {
    &&& opt_view(m.top_source_file) == Some(top_path)
    &&& views(m.additional_source_files@) == other_source_paths(sources, top_path, canonical_of(sources, top_path))
    &&& opt_view(m.command_line) == Some(command_line)
    &&& opt_view(m.output_vcd_path) == Some(output)
    &&& m.working_directory == working_directory
    &&& m.ir_module_count == 0
}

/// What a run of the compiled `project` of `sources` returns: the outcome of
/// [`pipeline_error`] (for refused connections, the first refused instance's message); on
/// success, the VCD of the resolved project's top module under the settings of the run (top
/// module, time base, `#delay` sum, clock half-period, cycle count and metadata).
pub open spec fn pipeline_result(
    sources: Seq<SourceText>,
    project: IrProject,
    output_display: Option<String>,
    command_line: Seq<char>,
    working_directory: Option<String>,
    options: CsVerilogOptions,
    r: Result<String, String>,
) -> bool {
    &&& outcome_matches(pipeline_error(sources, project, output_display, options), r)
    &&& (pipeline_error(sources, project, output_display, options) == Some(None::<Seq<char>>) ==> (r matches Err(e)
        && first_refusal_message(project.modules@, e@)))
    &&& (r matches Ok(v) ==> {
        let ms = project.modules@;
        let top = ms[top_choice(ms)->0].name@;
        let top_path = ms[first_named(ms, top)].path@;
        let tb = run_time_base(sources, options);
        exists|ms2: Seq<IrModule>, c: SimConfig|
            #![trigger vcd_of_project(ms2, c, v@)]
            ms2.len() == ms.len() && (forall|mi: int| 0 <= mi < ms.len() ==> resolved_module(ms[mi], #[trigger] ms2[mi], ms))
                && run_config_ok(
                c,
                top,
                tb.0,
                tb.1,
                paths_delay_units(ms, run_delay_paths(sources, options, top_path)) as usize,
                options,
            ) && (c.vcd_meta matches Some(m) && run_meta_ok(
                m,
                sources,
                top_path,
                command_line,
                output_display->0@,
                working_directory,
            )) && vcd_of_project(ms2, c, v@)
    })
}

/// Runs the compiled `project` of `sources`: checks the diagnostics, picks the top module,
/// names positional port connections, settles the time base (explicit, or the sources'
/// `` `timescale``), sizes the run from the `#delay` literals and writes the VCD (see
/// [`pipeline_result`]).
pub fn run_pipeline_on_project(
    sources: &Vec<SourceText>,
    project: IrProject,
    output_display: Option<String>,
    command_line: &String,
    working_directory: Option<String>,
    options: &CsVerilogOptions,
) -> (r: Result<String, String>)
    ensures
        pipeline_result(sources@, project, output_display, command_line@, working_directory, *options, r),
{
    let ghost p0 = project;
    let ghost ms = project.modules@;
    match compile_failure_message(&project.diagnostics) {
        Some(m) => {
            return Err(m);
        },
        None => {},
    }
    if project.modules.len() == 0 {
        return Err("no modules found in input files".to_owned());
    }
    let top_name = match pick_top_module(&project) {
        Some(n) => n,
        None => {
            return Err("no top-level module found".to_owned());
        },
    };
    let ghost ti = top_choice(ms)->0;
    let fi = match first_module_named(&project.modules, &top_name) {
        Some(i) => i,
        None => {
            assert(ms[ti].name@ == top_name@);
            return Err("no top-level module found".to_owned());
        },
    };
    let top_path = project.modules[fi].path.clone();
    let mut project = project;
    match resolve_instance_port_connections(&mut project) {
        Ok(()) => {},
        Err(e) => {
            return Err(e);
        },
    }
    proof {
        assert forall|mi: int, j: int| 0 <= mi < ms.len() && 0 <= j < ms[mi].instances@.len() implies !#[trigger] conn_refused(
            ms,
            mi,
            j,
        ) by {}
    }
    let output_display = match output_display {
        Some(o) => o,
        None => {
            return Err("output path is not valid UTF-8".to_owned());
        },
    };
    let top_canonical = find_canonical(sources, &top_path);
    let additional = other_sources(sources, &top_path, &top_canonical);
    let meta = VcdRunMeta {
        top_source_file: Some(top_path.clone()),
        additional_source_files: additional,
        command_line: Some(command_line.clone()),
        output_vcd_path: Some(output_display),
        working_directory,
        ir_module_count: 0,
    };
    let (unit, prec, files): (String, String, Vec<String>) = match &options.timescale {
        Some(ots) => {
            let u = string_from_chars(&trim_chars(&chars_of(ots.as_str())));
            (u.clone(), u, source_path_list(sources))
        },
        None => {
            let pairs = source_pair_list(sources);
            let scan = match scan_timescale_sources(&pairs) {
                Ok(s) => s,
                Err(e) => {
                    proof {
                        lemma_groups_nonempty(timescale_hits(pairs@));
                    }
                    return Err(e);
                },
            };
            proof {
                lemma_groups_nonempty(timescale_hits(pairs@));
            }
            let files = if scan.timescale_source_files.len() == 0 {
                let mut v: Vec<String> = Vec::new();
                v.push(top_path.clone());
                assert(views(v@) =~= seq![top_path@]);
                v
            } else {
                scan.timescale_source_files
            };
            (scan.time_unit, scan.time_precision, files)
        },
    };
    proof {
        assert forall|i: int| 0 <= i < ms.len() implies (#[trigger] ms[i]).path == project.modules@[i].path
            && ms[i].initial_blocks == project.modules@[i].initial_blocks by {
            assert(resolved_module(ms[i], project.modules@[i], ms));
        }
        assert(views(files@) =~= run_delay_paths(sources@, *options, top_path@));
        lemma_files_paths_delay(project.modules@, files@);
        lemma_paths_delay_same(ms, project.modules@, views(files@));
    }
    if !initial_delays_fit(&project, &files) {
        return Err("attempt to add with overflow".to_owned());
    }
    let delay_sum = sum_initial_delays_for_source_files(&project, &files);
    let config = csverilog_config(top_name, unit, prec, delay_sum, options, meta);
    assert(project.modules@[ti].name@ == config.top_module@);
    let r = generate_vcd(&project, &config);
    assert(r matches Ok(v) ==> vcd_of_project(project.modules@, config, v@));
    r
}

/// `path` is the path of one of `sources`.
pub open spec fn is_source_path(sources: Seq<SourceText>, path: Seq<char>) -> bool {
    exists|i: int| 0 <= i < sources.len() && (#[trigger] sources[i]).path@ == path
}

/// The modules of the projects `bs`, in order.
pub open spec fn all_modules(bs: Seq<IrProject>) -> Seq<IrModule>
    decreases bs.len(),
{
    if bs.len() == 0 {
        Seq::empty()
    } else {
        all_modules(bs.drop_last()) + bs.last().modules@
    }
}

/// The diagnostics of the projects `bs`, in order.
pub open spec fn all_diagnostics(bs: Seq<IrProject>) -> Seq<Diagnostic>
    decreases bs.len(),
{
    if bs.len() == 0 {
        Seq::empty()
    } else {
        all_diagnostics(bs.drop_last()) + bs.last().diagnostics@
    }
}

/// `p` is the compilation of `sources`: one project per source, in order, each the project of
/// that file ([`file_ir`]), their modules and their diagnostics put together.
pub open spec fn compiled_sources(p: IrProject, sources: Seq<SourceText>) -> bool {
    exists|bs: Seq<IrProject>|
        #![trigger all_modules(bs)]
        bs.len() == sources.len() && (forall|k: int|
            0 <= k < bs.len() ==> file_ir(#[trigger] bs[k], sources[k].path@, sources[k].content@)) && all_modules(bs)
            == p.modules@ && all_diagnostics(bs) == p.diagnostics@
}

/// The modules and diagnostics of all `sources`, compiled one by one, in order.
fn build_source_project(sources: &Vec<SourceText>) -> (r: IrProject)
    ensures
        forall|m: int| 0 <= m < r.modules@.len() ==> is_source_path(sources@, (#[trigger] r.modules@[m]).path@),
        forall|f: int|
            0 <= f < sources@.len() ==> first_module_kept(r.modules@, (#[trigger] sources@[f]).path@, sources@[f].content@),
        compiled_sources(r, sources@),
{
    let mut modules: Vec<IrModule> = Vec::new();
    let mut diagnostics: Vec<Diagnostic> = Vec::new();
    let mut i: usize = 0;
    let ghost mut bs: Seq<IrProject> = Seq::empty();
    while i < sources.len()
        invariant
            i <= sources.len(),
            bs.len() == i,
            forall|k: int| 0 <= k < bs.len() ==> file_ir(#[trigger] bs[k], sources@[k].path@, sources@[k].content@),
            modules@ == all_modules(bs),
            diagnostics@ == all_diagnostics(bs),
            forall|m: int| 0 <= m < modules@.len() ==> is_source_path(sources@, (#[trigger] modules@[m]).path@),
            forall|g: int|
                0 <= g < i ==> first_module_kept(modules@, (#[trigger] sources@[g]).path@, sources@[g].content@),
        decreases sources.len() - i,
    {
        let mut ir = build_ir_for_file(sources[i].path.as_str(), sources[i].content.as_str());
        let ghost before = modules@;
        let ghost added = ir.modules@;
        let ghost ir0 = ir;
        modules.append(&mut ir.modules);
        diagnostics.append(&mut ir.diagnostics);
        proof {
            let bs0 = bs;
            bs = bs.push(ir0);
            assert(bs.drop_last() =~= bs0);
            assert forall|k: int| 0 <= k < bs.len() implies file_ir(#[trigger] bs[k], sources@[k].path@, sources@[k].content@) by {
                if k < bs0.len() {
                    assert(bs[k] == bs0[k]);
                }
            }
        }
        proof {
            assert forall|m: int| 0 <= m < modules@.len() implies is_source_path(sources@, (#[trigger] modules@[m]).path@) by {
                if m < before.len() {
                    assert(modules@[m] == before[m]);
                } else {
                    assert(modules@[m] == added[m - before.len()]);
                    assert(sources@[i as int].path@ == modules@[m].path@);
                }
            }
            assert forall|g: int| 0 <= g < i implies first_module_kept(
                modules@,
                (#[trigger] sources@[g]).path@,
                sources@[g].content@,
            ) by {
                assert forall|k: int| 0 <= k < before.len() implies (#[trigger] modules@[k]).name == before[k].name
                    && modules@[k].path == before[k].path by {
                    assert(modules@[k] == before[k]);
                }
                lemma_first_module_kept_grows(before, modules@, sources@[g].path@, sources@[g].content@);
            }
            let (tokens, n) = choose|tokens: Seq<Token>, n: int|
                #![trigger lexed(tokens, sources@[i as int].content@), declared_count(n)]
                lexed(tokens, sources@[i as int].content@) && declared_count(n) && 0 <= n <= added.len() && (forall|
                    q: int,
                | 0 <= q < n ==> declared_module_name(tokens, (#[trigger] added[q]).name@)) && (first_module_name(
                    tokens,
                ) matches Some(nm) ==> n > 0 && added[0].name@ == nm);
            if let Some(nm) = first_module_name(tokens) {
                let k = before.len() as int;
                assert(modules@[k] == added[0]);
                assert(modules@[k].name@ == nm && modules@[k].path@ == sources@[i as int].path@);
            }
            assert(first_module_kept(modules@, sources@[i as int].path@, sources@[i as int].content@));
        }
        i = i + 1;
    }
    let r = IrProject { modules, diagnostics };
    assert(compiled_sources(r, sources@));
    r
}

/// The `csverilog` run over `sources`: an error when there is none; else the sources are
/// compiled one by one (each module defined in one of them, and the first module each text
/// declares among them) and the result is the run of that project ([`pipeline_result`]).
pub fn run_csverilog_pipeline(
    sources: &Vec<SourceText>,
    output_display: Option<String>,
    command_line: &String,
    working_directory: Option<String>,
    options: &CsVerilogOptions,
) -> (r: Result<String, String>)
    ensures
        sources@.len() == 0 ==> (r matches Err(e) && e@ == "no Verilog source files"@),
        sources@.len() > 0 ==> exists|p: IrProject|
            #[trigger] pipeline_result(sources@, p, output_display, command_line@, working_directory, *options, r)
                && compiled_sources(p, sources@)
                && (forall|m: int| 0 <= m < p.modules@.len() ==> is_source_path(sources@, (#[trigger] p.modules@[m]).path@))
                && (forall|f: int|
                0 <= f < sources@.len() ==> first_module_kept(
                    p.modules@,
                    (#[trigger] sources@[f]).path@,
                    sources@[f].content@,
                )),
{
    if sources.len() == 0 {
        return Err("no Verilog source files".to_owned());
    }
    let project = build_source_project(sources);
    let ghost p = project;
    let ghost od = output_display;
    let ghost wd = working_directory;
    let r = run_pipeline_on_project(sources, project, output_display, command_line, working_directory, options);
    assert(pipeline_result(sources@, p, od, command_line@, wd, *options, r));
    r
}

} // verus!
