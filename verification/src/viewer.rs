//! The waveform viewer's logic: which files it may open, edge tests on sampled values, the
//! query window, and the thinning of traces to the plot width.
use vstd::prelude::*;
use crate::strutil::{chars_of, string_from_chars, string_push, trim_chars, trim_spec};
use crate::timescale_util::{ascii_lower, ascii_lower_char};
use vstd::string::StringSliceAdditionalSpecFns;

verus! {

/// Identifier of an integrated-terminal session.
#[derive(Debug, Clone, Copy, Hash, PartialEq, Eq, Structural)]
pub struct SessionId(pub u64);

/// Whether `s` ends with `t`.
pub open spec fn ends_with_spec(s: Seq<char>, t: Seq<char>) -> bool {
    s.len() >= t.len() && s.skip(s.len() - t.len()) == t
}

/// Whether the terminal's shell is zsh: a path ending in `/zsh`, or `zsh` itself.
pub fn shell_binary_is_zsh(shell_bin: &str) -> (b: bool)
    ensures
        b == (ends_with_spec(shell_bin@, "/zsh"@) || shell_bin@ == "zsh"@),
{
    let s = chars_of(shell_bin);
    let suffix = chars_of("/zsh");
    let whole = chars_of("zsh");
    let mut ends = false;
    if s.len() >= suffix.len() {
        let off = s.len() - suffix.len();
        let mut i: usize = 0;
        ends = true;
        while i < suffix.len()
            invariant
                i <= suffix.len(),
                off + suffix.len() == s.len(),
                ends == (forall|j: int| 0 <= j < i ==> s@[off + j] == suffix@[j]),
            decreases suffix.len() - i,
        {
            if s[off + i] != suffix[i] {
                ends = false;
            }
            i = i + 1;
        }
        assert(ends == (s@.skip(off as int) =~= suffix@));
    }
    let mut same = s.len() == whole.len();
    if same {
        let mut i: usize = 0;
        while i < whole.len()
            invariant
                i <= whole.len() == s.len(),
                same == (forall|j: int| 0 <= j < i ==> s@[j] == whole@[j]),
            decreases whole.len() - i,
        {
            if s[i] != whole[i] {
                same = false;
            }
            i = i + 1;
        }
        assert(same == (s@ =~= whole@));
    }
    ends || same
}

/// A variable of the waveform hierarchy.
pub struct VcdVarNode {
    pub signal_id: u32,
    pub name: String,
    pub bits: u32,
}

/// A scope of the waveform hierarchy.
pub struct VcdScopeNode {
    pub name: String,
    pub scopes: Vec<VcdScopeNode>,
    pub vars: Vec<VcdVarNode>,
}

/// An item of a waveform scope, in the reader's order: a child scope or a variable (its signal
/// id, name and bit length when the file gives one).
pub enum HierItem {
    Scope(HierScope),
    Var { signal_id: u32, name: String, length: Option<u32> },
}

/// A scope of a waveform file's hierarchy as the reader gives it.
pub struct HierScope {
    pub name: String,
    pub items: Vec<HierItem>,
}

/// The variable node of a variable item: its length, or 1 bit when the file gives none.
pub open spec fn var_node_ok(r: VcdVarNode, signal_id: u32, name: Seq<char>, length: Option<u32>) -> bool {
    &&& r.signal_id == signal_id
    &&& r.name@ == name
    &&& r.bits == match length {
        Some(b) => b,
        None => 1u32,
    }
}

/// `scopes` and `vars` are the child scopes and the variables of `items`, each in order.
pub open spec fn items_rel(items: Seq<HierItem>, scopes: Seq<VcdScopeNode>, vars: Seq<VcdVarNode>) -> bool
    decreases items, 0nat,
{
    if items.len() == 0 {
        scopes.len() == 0 && vars.len() == 0
    } else {
        match items.last() {
            HierItem::Scope(s) => {
                &&& scopes.len() > 0
                &&& subtree_rel(s, scopes.last())
                &&& items_rel(items.drop_last(), scopes.drop_last(), vars)
            },
            HierItem::Var { signal_id, name, length } => {
                &&& vars.len() > 0
                &&& var_node_ok(vars.last(), signal_id, name@, length)
                &&& items_rel(items.drop_last(), scopes, vars.drop_last())
            },
        }
    }
}

/// `r` is the tree node of the scope `h`: its name, child scopes and variables in order.
pub open spec fn subtree_rel(h: HierScope, r: VcdScopeNode) -> bool
    decreases h, 1nat,
{
    r.name@ == h.name@ && items_rel(h.items@, r.scopes@, r.vars@)
}

/// The tree node of the scope `h`.
pub fn scope_subtree(h: &HierScope) -> (r: VcdScopeNode)
    ensures
        subtree_rel(*h, r),
    decreases h, 1nat,
{
    let mut scopes: Vec<VcdScopeNode> = Vec::new();
    let mut vars: Vec<VcdVarNode> = Vec::new();
    let mut i: usize = 0;
    while i < h.items.len()
        invariant
            i <= h.items.len(),
            items_rel(h.items@.take(i as int), scopes@, vars@),
        decreases h.items.len() - i,
    {
        let ghost t = h.items@.take(i + 1);
        assert(t.drop_last() =~= h.items@.take(i as int));
        assert(t.last() == h.items@[i as int]);
        assert(decreases_to!(h => h.items@[i as int]));
        match &h.items[i] {
            HierItem::Scope(child) => {
                let ghost before = scopes@;
                scopes.push(scope_subtree(child));
                assert(scopes@.drop_last() =~= before);
            },
            HierItem::Var { signal_id, name, length } => {
                let bits = match length {
                    Some(b) => *b,
                    None => 1,
                };
                let ghost before = vars@;
                vars.push(VcdVarNode { signal_id: *signal_id, name: name.clone(), bits });
                assert(vars@.drop_last() =~= before);
            },
        }
        i = i + 1;
    }
    assert(h.items@.take(h.items.len() as int) =~= h.items@);
    VcdScopeNode { name: h.name.clone(), scopes, vars }
}

/// The tree nodes of the top scopes, in order.
pub fn hierarchy_tree(tops: &Vec<HierScope>) -> (r: Vec<VcdScopeNode>)
    ensures
        r@.len() == tops@.len(),
        forall|i: int| 0 <= i < tops@.len() ==> subtree_rel(tops@[i], #[trigger] r@[i]),
{
    let mut out: Vec<VcdScopeNode> = Vec::new();
    let mut i: usize = 0;
    while i < tops.len()
        invariant
            i <= tops.len(),
            out@.len() == i,
            forall|k: int| 0 <= k < i ==> subtree_rel(tops@[k], #[trigger] out@[k]),
        decreases tops.len() - i,
    {
        out.push(scope_subtree(&tops[i]));
        i = i + 1;
    }
    out
}

/// The bit length of the first variable of signal `want` among `items`, searched depth-first
/// in order (a variable without a length has 1 bit).
pub open spec fn bits_in_items(items: Seq<HierItem>, want: u32) -> Option<u32>
    decreases items, 0nat,
{
    if items.len() == 0 {
        None
    } else {
        let first = match items[0] {
            HierItem::Scope(s) => bits_in_scope(s, want),
            HierItem::Var { signal_id, length, .. } => if signal_id == want {
                Some(
                    match length {
                        Some(b) => b,
                        None => 1u32,
                    },
                )
            } else {
                None
            },
        };
        match first {
            Some(b) => Some(b),
            None => bits_in_items(items.drop_first(), want),
        }
    }
}

/// The bit length of the first variable of signal `want` in the scope `s` (depth-first).
pub open spec fn bits_in_scope(s: HierScope, want: u32) -> Option<u32>
    decreases s, 1nat,
{
    bits_in_items(s.items@, want)
}

/// The bit length of the first variable of signal `want` in the tops, in order.
pub open spec fn bits_in_tops(tops: Seq<HierScope>, want: u32) -> Option<u32>
    decreases tops.len(),
{
    if tops.len() == 0 {
        None
    } else {
        match bits_in_scope(tops[0], want) {
            Some(b) => Some(b),
            None => bits_in_tops(tops.drop_first(), want),
        }
    }
}

/// The bit length of the first variable of signal `want` in the scope `s` (depth-first).
fn bits_in_scope_exec(s: &HierScope, want: u32) -> (r: Option<u32>)
    ensures
        r == bits_in_scope(*s, want),
    decreases s, 1nat,
{
    let mut i: usize = 0;
    assert(s.items@.skip(0) =~= s.items@);
    while i < s.items.len()
        invariant
            i <= s.items.len(),
            bits_in_scope(*s, want) == bits_in_items(s.items@.skip(i as int), want),
        decreases s.items.len() - i,
    {
        assert(s.items@.skip(i as int)[0] == s.items@[i as int]);
        assert(s.items@.skip(i as int).drop_first() =~= s.items@.skip(i + 1));
        assert(decreases_to!(s => s.items@[i as int]));
        let found = match &s.items[i] {
            HierItem::Scope(child) => bits_in_scope_exec(child, want),
            HierItem::Var { signal_id, length, .. } => if *signal_id == want {
                Some(
                    match length {
                        Some(b) => *b,
                        None => 1,
                    },
                )
            } else {
                None
            },
        };
        if found.is_some() {
            return found;
        }
        i = i + 1;
    }
    None
}

/// The bit length of signal `want`: its first variable in the tops, searched depth-first in
/// order; 1 when no variable has that signal.
pub fn bits_for_signal(tops: &Vec<HierScope>, want: u32) -> (r: u32)
    ensures
        r == match bits_in_tops(tops@, want) {
            Some(b) => b,
            None => 1u32,
        },
{
    let mut i: usize = 0;
    assert(tops@.skip(0) =~= tops@);
    while i < tops.len()
        invariant
            i <= tops.len(),
            bits_in_tops(tops@, want) == bits_in_tops(tops@.skip(i as int), want),
        decreases tops.len() - i,
    {
        assert(tops@.skip(i as int)[0] == tops@[i as int]);
        assert(tops@.skip(i as int).drop_first() =~= tops@.skip(i + 1));
        match bits_in_scope_exec(&tops[i], want) {
            Some(b) => {
                return b;
            },
            None => {},
        }
        i = i + 1;
    }
    1
}

/// What opening a waveform reports.
pub struct VcdOpenResponse {
    /// Set when a newer open or a close superseded this one; the body is then to be ignored.
    pub superseded: bool,
    pub path: String,
    pub time_start: u64,
    pub time_end: u64,
    pub timescale_factor: Option<u32>,
    pub timescale_unit: Option<String>,
    pub hierarchy: Vec<VcdScopeNode>,
}

/// One sample of a trace: signal, time and value text.
pub struct VcdTransition {
    pub signal_id: u32,
    pub time: u64,
    pub value: String,
}

/// The samples of a trace query.
pub struct VcdQueryResponse {
    pub transitions: Vec<VcdTransition>,
}

/// Whether `a` and `b` are equal up to ASCII case.
pub open spec fn eq_ignore_ascii_case_spec(a: Seq<char>, b: Seq<char>) -> bool {
    a.len() == b.len() && forall|i: int| 0 <= i < a.len() ==> ascii_lower(#[trigger] a[i]) == ascii_lower(b[i])
}

/// Whether an extension is `vcd` in any ASCII case.
pub open spec fn has_vcd_extension(ext: Option<String>) -> bool {
    match ext {
        Some(x) => eq_ignore_ascii_case_spec(x@, "vcd"@),
        None => false,
    }
}

/// The error for a file outside the project folder.
pub open spec fn outside_project_message(project: Seq<char>, file: Seq<char>) -> Seq<char> {
    "Path must be under project folder:\n  project: "@ + project + "\n  file: "@ + file
}

/// Decides whether a waveform file may be opened, from what the file system reports of it: the
/// requested path must be absolute, its normalized form `file_norm` must lie under the project's
/// `project_norm`, be a file, and have the extension `vcd` (any ASCII case). Returns the
/// normalized path.
pub fn path_under_project(
    file_is_absolute: bool,
    project_norm: &String,
    file_norm: &String,
    under_project: bool,
    is_file: bool,
    extension: &Option<String>,
) -> (r: Result<String, String>)
    ensures
        !file_is_absolute ==> (r matches Err(e) && e@ == "VCD path must be absolute"@),
        file_is_absolute && !under_project ==> (r matches Err(e) && e@ == outside_project_message(
            project_norm@,
            file_norm@,
        )),
        file_is_absolute && under_project && !is_file ==> (r matches Err(e) && e@ == "Not a file: "@ + file_norm@),
        file_is_absolute && under_project && is_file ==> match r {
            Ok(p) => p@ == file_norm@ && has_vcd_extension(*extension),
            Err(e) => e@ == "Only .vcd files are supported"@ && !has_vcd_extension(*extension),
        },
{
    if !file_is_absolute {
        return Err("VCD path must be absolute".to_owned());
    }
    if !under_project {
        let mut e = "Path must be under project folder:\n  project: ".to_owned();
        e.append(project_norm.as_str());
        e.append("\n  file: ");
        e.append(file_norm.as_str());
        return Err(e);
    }
    if !is_file {
        let mut e = "Not a file: ".to_owned();
        e.append(file_norm.as_str());
        return Err(e);
    }
    let ok = match extension {
        Some(x) => {
            let a = chars_of(x.as_str());
            let b = chars_of("vcd");
            let mut same = a.len() == b.len();
            if same {
                let mut i: usize = 0;
                while i < a.len()
                    invariant
                        i <= a.len() == b.len(),
                        same == (forall|j: int| 0 <= j < i ==> ascii_lower(#[trigger] a@[j]) == ascii_lower(b@[j])),
                    decreases a.len() - i,
                {
                    if ascii_lower_char(a[i]) != ascii_lower_char(b[i]) {
                        same = false;
                    }
                    i = i + 1;
                }
            }
            same
        },
        None => false,
    };
    if !ok {
        return Err("Only .vcd files are supported".to_owned());
    }
    Ok(file_norm.clone())
}

/// Every character of `s` is `0` or `1`.
pub open spec fn all_binary(s: Seq<char>) -> bool {
    forall|i: int| 0 <= i < s.len() ==> (#[trigger] s[i] == '0' || s[i] == '1')
}

/// Value of a string of binary digits, most significant first.
pub open spec fn bin_value(s: Seq<char>) -> nat
    decreases s.len(),
{
    if s.len() == 0 {
        0
    } else {
        bin_value(s.drop_last()) * 2 + if s.last() == '1' { 1nat } else { 0nat }
    }
}

/// A trimmed, non-empty binary number that fits in 128 bits.
pub open spec fn parse_bin_spec(s: Seq<char>) -> Option<u128> {
    let t = trim_spec(s);
    if t.len() == 0 || !all_binary(t) || bin_value(t) > u128::MAX {
        None
    } else {
        Some(bin_value(t) as u128)
    }
}

proof fn lemma_bin_value_prefix(s: Seq<char>, k: int)
    requires
        0 <= k <= s.len(),
    ensures
        bin_value(s.take(k)) <= bin_value(s),
    decreases s.len() - k,
{
    if k < s.len() {
        lemma_bin_value_prefix(s, k + 1);
        assert(s.take(k + 1).drop_last() == s.take(k));
    } else {
        assert(s.take(k) == s);
    }
}

/// A trimmed binary number (see [`parse_bin_spec`]).
pub fn parse_bin_u128(s: &str) -> (r: Option<u128>)
    ensures
        r == parse_bin_spec(s@),
{
    let t = trim_chars(&chars_of(s));
    if t.len() == 0 {
        return None;
    }
    let mut i: usize = 0;
    while i < t.len()
        invariant
            i <= t.len(),
            t@ == trim_spec(s@),
            forall|j: int| 0 <= j < i ==> (#[trigger] t@[j] == '0' || t@[j] == '1'),
        decreases t.len() - i,
    {
        if t[i] != '0' && t[i] != '1' {
            assert(!all_binary(t@));
            return None;
        }
        i = i + 1;
    }
    let mut acc: u128 = 0;
    let mut k: usize = 0;
    while k < t.len()
        invariant
            k <= t.len(),
            t@ == trim_spec(s@),
            t.len() > 0,
            all_binary(t@),
            acc == bin_value(t@.take(k as int)),
        decreases t.len() - k,
    {
        assert(t@.take(k + 1).drop_last() == t@.take(k as int));
        let d: u128 = if t[k] == '1' { 1 } else { 0 };
        match acc.checked_mul(2) {
            Some(a2) => match a2.checked_add(d) {
                Some(a3) => {
                    acc = a3;
                },
                None => {
                    proof {
                        lemma_bin_value_prefix(t@, k + 1);
                    }
                    return None;
                },
            },
            None => {
                proof {
                    lemma_bin_value_prefix(t@, k + 1);
                }
                return None;
            },
        }
        k = k + 1;
    }
    assert(t@.take(t.len() as int) == t@);
    Some(acc)
}

/// A trimmed single `0` or `1`.
pub open spec fn bit01_spec(s: Seq<char>) -> Option<u8> {
    let t = trim_spec(s);
    if t == seq!['0'] {
        Some(0)
    } else if t == seq!['1'] {
        Some(1)
    } else {
        None
    }
}

/// A trimmed single bit (see [`bit01_spec`]).
pub fn bit01(s: &str) -> (r: Option<u8>)
    ensures
        r == bit01_spec(s@),
{
    let t = trim_chars(&chars_of(s));
    if t.len() == 1 && t[0] == '0' {
        assert(t@ =~= seq!['0']);
        Some(0)
    } else if t.len() == 1 && t[0] == '1' {
        assert(t@ =~= seq!['1']);
        Some(1)
    } else {
        None
    }
}

/// Which value changes count as an edge.
#[derive(Debug, Clone, Copy, PartialEq, Eq, Structural)]
pub enum EdgeKind {
    Any,
    Rising,
    Falling,
}

/// Whether the change `prev` -> `new` of a `bits`-wide trace is an edge of `kind`: any change;
/// for one bit, 0 -> 1 (rising) or 1 -> 0 (falling); for a bus of pure binary values, an
/// increase or a decrease.
pub open spec fn edge_matches_spec(prev: Seq<char>, new: Seq<char>, bits: u32, kind: EdgeKind) -> bool {
    if prev == new {
        false
    } else {
        match kind {
            EdgeKind::Any => true,
            EdgeKind::Rising => if bits <= 1 {
                bit01_spec(prev) == Some(0u8) && bit01_spec(new) == Some(1u8)
            } else {
                match (parse_bin_spec(prev), parse_bin_spec(new)) {
                    (Some(a), Some(b)) => b > a,
                    _ => false,
                }
            },
            EdgeKind::Falling => if bits <= 1 {
                bit01_spec(prev) == Some(1u8) && bit01_spec(new) == Some(0u8)
            } else {
                match (parse_bin_spec(prev), parse_bin_spec(new)) {
                    (Some(a), Some(b)) => b < a,
                    _ => false,
                }
            },
        }
    }
}

/// Edge test on two sampled values (see [`edge_matches_spec`]).
pub fn edge_matches(prev: &str, new: &str, bits: u32, kind: EdgeKind) -> (b: bool)
    ensures
        b == edge_matches_spec(prev@, new@, bits, kind),
{
    if prev.to_owned() == new.to_owned() {
        return false;
    }
    match kind {
        EdgeKind::Any => true,
        EdgeKind::Rising => {
            if bits <= 1 {
                bit01(prev) == Some(0u8) && bit01(new) == Some(1u8)
            } else {
                match (parse_bin_u128(prev), parse_bin_u128(new)) {
                    (Some(a), Some(b)) => b > a,
                    _ => false,
                }
            }
        },
        EdgeKind::Falling => {
            if bits <= 1 {
                bit01(prev) == Some(1u8) && bit01(new) == Some(0u8)
            } else {
                match (parse_bin_u128(prev), parse_bin_u128(new)) {
                    (Some(a), Some(b)) => b < a,
                    _ => false,
                }
            }
        },
    }
}

/// A binary value as exactly `width` digits, most significant first: its last `width` digits,
/// or zeros put in front; `None` unless the trimmed text is a non-empty binary number.
pub open spec fn normalize_bus_spec(s: Seq<char>, width: nat) -> Option<Seq<char>> {
    let t = trim_spec(s);
    if t.len() == 0 || !all_binary(t) {
        None
    } else if t.len() >= width {
        Some(t.skip(t.len() - width))
    } else {
        Some(Seq::new((width - t.len()) as nat, |i: int| '0') + t)
    }
}

/// A bus value padded or cut to `width` digits (see [`normalize_bus_spec`]).
pub fn normalize_bus_binary_msb(s: &str, width: u32) -> (r: Option<String>)
    ensures
        match normalize_bus_spec(s@, width as nat) {
            Some(x) => r matches Some(y) && y@ == x,
            None => r is None,
        },
{
    let t = trim_chars(&chars_of(s));
    if t.len() == 0 {
        return None;
    }
    let mut i: usize = 0;
    while i < t.len()
        invariant
            i <= t.len(),
            t@ == trim_spec(s@),
            forall|j: int| 0 <= j < i ==> (#[trigger] t@[j] == '0' || t@[j] == '1'),
        decreases t.len() - i,
    {
        if t[i] != '0' && t[i] != '1' {
            assert(!all_binary(t@));
            return None;
        }
        i = i + 1;
    }
    let w = width as usize;
    let mut out: Vec<char> = Vec::new();
    if t.len() >= w {
        let start = t.len() - w;
        let mut k = start;
        while k < t.len()
            invariant
                start <= k <= t.len(),
                out@ == t@.subrange(start as int, k as int),
            decreases t.len() - k,
        {
            out.push(t[k]);
            assert(t@.subrange(start as int, k + 1) == t@.subrange(start as int, k as int).push(t@[k as int]));
            k = k + 1;
        }
        assert(t@.subrange(start as int, t.len() as int) == t@.skip(start as int));
    } else {
        let pad = w - t.len();
        let mut k: usize = 0;
        while k < pad
            invariant
                k <= pad,
                out@ == Seq::new(k as nat, |i: int| '0'),
            decreases pad - k,
        {
            out.push('0');
            assert(out@ =~= Seq::new((k + 1) as nat, |i: int| '0'));
            k = k + 1;
        }
        let mut m: usize = 0;
        while m < t.len()
            invariant
                m <= t.len(),
                out@ == Seq::new(pad as nat, |i: int| '0') + t@.take(m as int),
            decreases t.len() - m,
        {
            out.push(t[m]);
            assert(t@.take(m + 1) == t@.take(m as int).push(t@[m as int]));
            m = m + 1;
        }
        assert(t@.take(t.len() as int) == t@);
    }
    Some(string_from_chars(&out))
}

/// Bit `bit_lsb` (0 = least significant) of a `width`-digit binary text, read from its UTF-8
/// bytes at index `width - 1 - bit_lsb`: `Some(0)` / `Some(1)` for a `0` / `1` byte there.
pub open spec fn bit_at_spec(bytes: Seq<u8>, bit_lsb: u32, width: u32) -> Option<u8> {
    if width == 0 || bit_lsb > width - 1 {
        None
    } else {
        let i = width - 1 - bit_lsb;
        if i >= bytes.len() {
            None
        } else if bytes[i] == 48u8 {
            Some(0)
        } else if bytes[i] == 49u8 {
            Some(1)
        } else {
            None
        }
    }
}

/// One bit of a normalized bus value (see [`bit_at_spec`]).
pub fn bit_at_lsb_index(bin_msb: &str, bit_lsb: u32, width: u32) -> (r: Option<u8>)
    ensures
        r == bit_at_spec(bin_msb.spec_bytes(), bit_lsb, width),
{
    if width == 0 || bit_lsb > width - 1 {
        return None;
    }
    let i = (width - 1 - bit_lsb) as usize;
    let bytes = bin_msb.as_bytes();
    if i >= bytes.len() {
        return None;
    }
    if bytes[i] == 48u8 {
        Some(0)
    } else if bytes[i] == 49u8 {
        Some(1)
    } else {
        None
    }
}

/// Whether bit `bit_lsb` of a `width`-bit bus changes from `prev` to `new` as an edge of `kind`
/// (both values normalized to `width` digits first).
pub open spec fn edge_matches_lsb_spec(prev: Seq<char>, new: Seq<char>, width: u32, bit_lsb: u32, kind: EdgeKind) -> bool {
    match (normalize_bus_spec(prev, width as nat), normalize_bus_spec(new, width as nat)) {
        (Some(p), Some(n)) => match (bit_at_spec(ascii_bytes(p), bit_lsb, width), bit_at_spec(ascii_bytes(n), bit_lsb, width)) {
            (Some(pb), Some(nb)) => pb != nb && match kind {
                EdgeKind::Any => true,
                EdgeKind::Rising => pb == 0 && nb == 1,
                EdgeKind::Falling => pb == 1 && nb == 0,
            },
            _ => false,
        },
        _ => false,
    }
}

/// The bytes of an ASCII text.
pub open spec fn ascii_bytes(s: Seq<char>) -> Seq<u8> {
    s.map_values(|c: char| c as u8)
}

/// Edge test on one bit of a bus (see [`edge_matches_lsb_spec`]).
pub fn edge_matches_lsb_bit(prev: &str, new: &str, width: u32, bit_lsb: u32, kind: EdgeKind) -> (b: bool)
    ensures
        b == edge_matches_lsb_spec(prev@, new@, width, bit_lsb, kind),
{
    let pn = match normalize_bus_binary_msb(prev, width) {
        Some(x) => x,
        None => {
            return false;
        },
    };
    let nn = match normalize_bus_binary_msb(new, width) {
        Some(x) => x,
        None => {
            return false;
        },
    };
    let ps = pn.as_str();
    let ns = nn.as_str();
    proof {
        lemma_binary_ascii_bytes(pn@, prev@, width as nat);
        lemma_binary_ascii_bytes(nn@, new@, width as nat);
        vstd::string::is_ascii_spec_bytes(ps);
        vstd::string::is_ascii_spec_bytes(ns);
        assert(ps.spec_bytes() =~= ascii_bytes(pn@));
        assert(ns.spec_bytes() =~= ascii_bytes(nn@));
    }
    let pb = match bit_at_lsb_index(ps, bit_lsb, width) {
        Some(x) => x,
        None => {
            return false;
        },
    };
    let nb = match bit_at_lsb_index(ns, bit_lsb, width) {
        Some(x) => x,
        None => {
            return false;
        },
    };
    if pb == nb {
        return false;
    }
    match kind {
        EdgeKind::Any => true,
        EdgeKind::Rising => pb == 0 && nb == 1,
        EdgeKind::Falling => pb == 1 && nb == 0,
    }
}

/// A normalized bus value is binary, so ASCII.
proof fn lemma_binary_ascii_bytes(x: Seq<char>, s: Seq<char>, width: nat)
    requires
        normalize_bus_spec(s, width) == Some(x),
    ensures
        all_binary(x),
        vstd::utf8::is_ascii_chars(x),
{
    let t = trim_spec(s);
    if t.len() >= width {
        assert forall|i: int| 0 <= i < x.len() implies (#[trigger] x[i] == '0' || x[i] == '1') by {
            assert(x[i] == t[i + t.len() - width]);
        }
    } else {
        let z = Seq::new((width - t.len()) as nat, |i: int| '0');
        assert forall|i: int| 0 <= i < x.len() implies (#[trigger] x[i] == '0' || x[i] == '1') by {
            if i < z.len() {
                assert(x[i] == z[i]);
            } else {
                assert(x[i] == t[i - z.len()]);
            }
        }
    }
}

/// A sample viewed as plain values: signal, time, value text.
pub open spec fn tview(t: VcdTransition) -> (u32, u64, Seq<char>) {
    (t.signal_id, t.time, t.value@)
}

/// The views of a list of samples.
pub open spec fn tviews(s: Seq<VcdTransition>) -> Seq<(u32, u64, Seq<char>)> {
    s.map_values(|t: VcdTransition| tview(t))
}

/// Index of the last sample at or before `t` (for samples sorted by time, the sample whose
/// value holds at `t`).
pub open spec fn last_at_or_before(rows: Seq<(u32, u64, Seq<char>)>, t: u64) -> Option<int>
    decreases rows.len(),
{
    if rows.len() == 0 {
        None
    } else if rows.last().1 <= t {
        Some(rows.len() - 1)
    } else {
        last_at_or_before(rows.drop_last(), t)
    }
}

/// The value of the last sample at or before `t`.
pub open spec fn value_at_spec(rows: Seq<(u32, u64, Seq<char>)>, t: u64) -> Option<Seq<char>> {
    match last_at_or_before(rows, t) {
        Some(i) => Some(rows[i].2),
        None => None,
    }
}

proof fn lemma_last_at_or_before(rows: Seq<(u32, u64, Seq<char>)>, t: u64)
    ensures
        match last_at_or_before(rows, t) {
            Some(i) => 0 <= i < rows.len() && rows[i].1 <= t && forall|j: int| i < j < rows.len() ==> rows[j].1 > t,
            None => forall|j: int| 0 <= j < rows.len() ==> rows[j].1 > t,
        },
    decreases rows.len(),
{
    if rows.len() > 0 && rows.last().1 > t {
        lemma_last_at_or_before(rows.drop_last(), t);
        assert forall|j: int| 0 <= j < rows.len() - 1 implies rows[j] == rows.drop_last()[j] by {}
    }
}

/// The value holding at `t` (see [`value_at_spec`]).
pub fn value_at_or_before<'a>(times: &'a Vec<VcdTransition>, t: u64) -> (r: Option<&'a str>)
    ensures
        match value_at_spec(tviews(times@), t) {
            Some(v) => r matches Some(x) && x@ == v,
            None => r is None,
        },
{
    let ghost rows = tviews(times@);
    proof {
        lemma_last_at_or_before(rows, t);
    }
    let mut i = times.len();
    while i > 0
        invariant
            i <= times.len(),
            rows == tviews(times@),
            forall|j: int| i <= j < times@.len() ==> times@[j].time > t,
            match last_at_or_before(rows, t) {
                Some(k) => 0 <= k < rows.len() && rows[k].1 <= t && forall|j: int| k < j < rows.len() ==> rows[j].1 > t,
                None => forall|j: int| 0 <= j < rows.len() ==> rows[j].1 > t,
            },
        decreases i,
    {
        if times[i - 1].time <= t {
            assert(rows[i - 1].1 <= t);
            assert(last_at_or_before(rows, t) == Some(i - 1));
            return Some(times[i - 1].value.as_str());
        }
        i = i - 1;
    }
    assert(times@.len() > 0 ==> rows[0].1 > t);
    None
}

/// `a + b`, saturating at `u64::MAX`.
pub open spec fn sat_add_u64(a: u64, b: u64) -> u64 {
    if a + b > u64::MAX { u64::MAX } else { (a + b) as u64 }
}

/// `a * b`, saturating at `u64::MAX`.
pub open spec fn sat_mul_u64(a: u64, b: u64) -> u64 {
    if a * b > u64::MAX { u64::MAX } else { (a * b) as u64 }
}

/// `a - b`, saturating at 0.
pub open spec fn sat_sub_u64(a: u64, b: u64) -> u64 {
    if a < b { 0 } else { (a - b) as u64 }
}

/// Right edge of plot column `j` of `n`: the window end for the last column.
pub open spec fn column_edge(ts: u64, te: u64, span: u64, n: nat, j: nat) -> u64 {
    if j + 1 == n {
        te
    } else {
        sat_add_u64(ts, (sat_mul_u64(span, (j + 1) as u64) as nat / n) as u64)
    }
}

/// The resampled trace after `j` columns, and the value last emitted.
pub open spec fn resample_state(
    rows: Seq<(u32, u64, Seq<char>)>,
    ts: u64,
    te: u64,
    n: nat,
    span: u64,
    sid: u32,
    j: nat,
) -> (Seq<(u32, u64, Seq<char>)>, Seq<char>)
    decreases j,
{
    if j == 0 {
        let v0 = match value_at_spec(rows, ts) {
            Some(v) => v,
            None => rows[0].2,
        };
        (seq![(sid, ts, v0)], v0)
    } else {
        let (out, last) = resample_state(rows, ts, te, n, span, sid, (j - 1) as nat);
        let t = column_edge(ts, te, span, n, (j - 1) as nat);
        let v = match value_at_spec(rows, t) {
            Some(v) => v,
            None => last,
        };
        if v != last {
            (out.push((sid, t, v)), v)
        } else {
            (out, last)
        }
    }
}

/// A trace resampled at the right edges of `max(ncols, 2)` plot columns: the value at the window
/// start, then each column edge where the held value differs from the last one emitted.
pub open spec fn resample_spec(rows: Seq<(u32, u64, Seq<char>)>, ts: u64, te: u64, ncols: nat, sid: u32) -> Seq<(u32, u64, Seq<char>)> {
    if rows.len() == 0 {
        seq![]
    } else {
        let n: nat = if ncols < 2 { 2 } else { ncols };
        let d = sat_sub_u64(te, ts);
        let span: u64 = if d < 1 { 1 } else { d };
        resample_state(rows, ts, te, n, span, sid, n).0
    }
}

/// A copy of a string.
fn copy_str(s: &str) -> (r: String)
    ensures
        r@ == s@,
{
    s.to_owned()
}

/// Resamples a trace at the plot's column edges (see [`resample_spec`]).
pub fn resample_transitions_for_viewport(rows: &Vec<VcdTransition>, t_start: u64, t_end: u64, ncols: usize, sid: u32) -> (r: Vec<VcdTransition>)
    ensures
        tviews(r@) == resample_spec(tviews(rows@), t_start, t_end, ncols as nat, sid),
{
    let ghost rv = tviews(rows@);
    if rows.len() == 0 {
        let e: Vec<VcdTransition> = Vec::new();
        assert(tviews(e@) =~= seq![]);
        return e;
    }
    let n: usize = if ncols < 2 { 2 } else { ncols };
    let d: u64 = if t_end < t_start { 0 } else { t_end - t_start };
    let span: u64 = if d < 1 { 1 } else { d };
    let v_start = match value_at_or_before(rows, t_start) {
        Some(v) => copy_str(v),
        None => rows[0].value.clone(),
    };
    let mut out: Vec<VcdTransition> = Vec::new();
    out.push(VcdTransition { signal_id: sid, time: t_start, value: v_start.clone() });
    let mut last_v = v_start;
    assert(tviews(out@) =~= resample_state(rv, t_start, t_end, n as nat, span, sid, 0).0);
    let mut j: usize = 0;
    while j < n
        invariant
            j <= n,
            n >= 2,
            rv == tviews(rows@),
            rows@.len() > 0,
            span >= 1,
            (tviews(out@), last_v@) == resample_state(rv, t_start, t_end, n as nat, span, sid, j as nat),
        decreases n - j,
    {
        let t_edge: u64 = if j + 1 == n {
            t_end
        } else {
            let m: u64 = match span.checked_mul((j + 1) as u64) {
                Some(p) => p,
                None => u64::MAX,
            };
            let off = m / (n as u64);
            match t_start.checked_add(off) {
                Some(s) => s,
                None => u64::MAX,
            }
        };
        assert(t_edge == column_edge(t_start, t_end, span, n as nat, j as nat));
        let v = match value_at_or_before(rows, t_edge) {
            Some(x) => copy_str(x),
            None => last_v.clone(),
        };
        let ghost before = out@;
        if v != last_v {
            out.push(VcdTransition { signal_id: sid, time: t_edge, value: v.clone() });
            assert(tviews(out@) =~= tviews(before).push((sid, t_edge, v@)));
            last_v = v;
        }
        j = j + 1;
    }
    out
}

/// The collapsed samples after `k` steps: a sample is dropped when its value equals the last
/// one kept.
pub open spec fn decimate_state(
    rows: Seq<(u32, u64, Seq<char>)>,
    ts: u64,
    span: nat,
    denom: nat,
    sid: u32,
    k: nat,
) -> Seq<(u32, u64, Seq<char>)>
    decreases k,
{
    if k == 0 {
        seq![]
    } else {
        let acc = decimate_state(rows, ts, span, denom, sid, (k - 1) as nat);
        let t = sat_add_u64(ts, ((span * ((k - 1) as nat)) / denom) as u64);
        let v = match value_at_spec(rows, t) {
            Some(v) => v,
            None => rows[0].2,
        };
        if acc.len() > 0 && acc.last().2 == v {
            acc
        } else {
            acc.push((sid, t, v))
        }
    }
}

/// A trace subsampled along time: unchanged when it has at most `max` samples (or `max < 2`);
/// otherwise the values at `max` evenly spaced times of the window, consecutive equal values
/// collapsed.
pub open spec fn decimate_spec(rows: Seq<(u32, u64, Seq<char>)>, max: nat, ts: u64, te: u64, sid: u32) -> Seq<(u32, u64, Seq<char>)> {
    if rows.len() == 0 {
        seq![]
    } else if rows.len() <= max || max < 2 {
        rows
    } else {
        let d = sat_sub_u64(te, ts);
        let span: nat = if d < 1 { 1 } else { d as nat };
        let denom: nat = if max - 1 < 1 { 1 } else { (max - 1) as nat };
        decimate_state(rows, ts, span, denom, sid, max)
    }
}

/// A copy of a list of samples.
fn copy_transitions(rows: &Vec<VcdTransition>) -> (r: Vec<VcdTransition>)
    ensures
        tviews(r@) == tviews(rows@),
{
    let mut out: Vec<VcdTransition> = Vec::new();
    let mut i: usize = 0;
    while i < rows.len()
        invariant
            i <= rows.len(),
            tviews(out@) == tviews(rows@.take(i as int)),
        decreases rows.len() - i,
    {
        let ghost before = out@;
        out.push(VcdTransition { signal_id: rows[i].signal_id, time: rows[i].time, value: rows[i].value.clone() });
        assert(tviews(out@) =~= tviews(before).push(tview(rows@[i as int])));
        assert(tviews(rows@.take(i + 1)) =~= tviews(rows@.take(i as int)).push(tview(rows@[i as int])));
        i = i + 1;
    }
    assert(rows@.take(rows.len() as int) == rows@);
    out
}

proof fn lemma_offset_within_span(span: nat, k: nat, denom: nat)
    requires
        denom >= 1,
        k <= denom,
    ensures
        (span * k) / denom <= span,
{
    assert((span * k) / denom <= span) by (nonlinear_arith)
        requires
            denom >= 1,
            k <= denom,
    ;
}

/// Subsamples a trace along time (see [`decimate_spec`]).
pub fn decimate_transitions_slice(rows: &Vec<VcdTransition>, max: usize, t_start: u64, t_end: u64, sid: u32) -> (r: Vec<VcdTransition>)
    ensures
        tviews(r@) == decimate_spec(tviews(rows@), max as nat, t_start, t_end, sid),
{
    let ghost rv = tviews(rows@);
    if rows.len() == 0 {
        let e: Vec<VcdTransition> = Vec::new();
        assert(tviews(e@) =~= seq![]);
        return e;
    }
    if rows.len() <= max || max < 2 {
        return copy_transitions(rows);
    }
    let d: u64 = if t_end < t_start { 0 } else { t_end - t_start };
    let span: u128 = if d < 1 { 1 } else { d as u128 };
    let denom: u128 = if max - 1 < 1 { 1 } else { (max - 1) as u128 };
    let mut out: Vec<VcdTransition> = Vec::new();
    let mut k: usize = 0;
    while k < max
        invariant
            k <= max,
            max >= 2,
            rv == tviews(rows@),
            rows@.len() > 0,
            1 <= span <= u64::MAX,
            denom == max - 1,
            tviews(out@) == decimate_state(rv, t_start, span as nat, denom as nat, sid, k as nat),
        decreases max - k,
    {
        proof {
            lemma_offset_within_span(span as nat, k as nat, denom as nat);
            assert(span * (k as u128) <= u64::MAX * u64::MAX) by (nonlinear_arith)
                requires
                    span <= u64::MAX,
                    k <= u64::MAX,
            ;
        }
        let off: u128 = (span * (k as u128)) / denom;
        let t: u64 = match t_start.checked_add(off as u64) {
            Some(s) => s,
            None => u64::MAX,
        };
        let v = match value_at_or_before(rows, t) {
            Some(x) => copy_str(x),
            None => rows[0].value.clone(),
        };
        let ghost before = out@;
        let keep = if out.len() > 0 { out[out.len() - 1].value != v } else { true };
        if keep {
            out.push(VcdTransition { signal_id: sid, time: t, value: v });
            assert(tviews(out@) =~= tviews(before).push(tview(out@.last())));
        }
        k = k + 1;
    }
    out
}

/// Time unit of a waveform's `$timescale`.
#[derive(Debug, Clone, Copy, PartialEq, Eq, Structural)]
pub enum VcdTimeUnit {
    ZeptoSeconds,
    AttoSeconds,
    FemtoSeconds,
    PicoSeconds,
    NanoSeconds,
    MicroSeconds,
    MilliSeconds,
    Seconds,
    Unknown,
}

/// The label of a time unit (`zs`, `as`, `fs`, `ps`, `ns`, `us`, `ms`, `s`, `unknown`).
pub open spec fn unit_label_spec(u: VcdTimeUnit) -> Seq<char> {
    match u {
        VcdTimeUnit::ZeptoSeconds => "zs"@,
        VcdTimeUnit::AttoSeconds => "as"@,
        VcdTimeUnit::FemtoSeconds => "fs"@,
        VcdTimeUnit::PicoSeconds => "ps"@,
        VcdTimeUnit::NanoSeconds => "ns"@,
        VcdTimeUnit::MicroSeconds => "us"@,
        VcdTimeUnit::MilliSeconds => "ms"@,
        VcdTimeUnit::Seconds => "s"@,
        VcdTimeUnit::Unknown => "unknown"@,
    }
}

/// The label of a time unit (see [`unit_label_spec`]).
pub fn timescale_unit_label(u: VcdTimeUnit) -> (r: &'static str)
    ensures
        r@ == unit_label_spec(u),
{
    match u {
        VcdTimeUnit::ZeptoSeconds => "zs",
        VcdTimeUnit::AttoSeconds => "as",
        VcdTimeUnit::FemtoSeconds => "fs",
        VcdTimeUnit::PicoSeconds => "ps",
        VcdTimeUnit::NanoSeconds => "ns",
        VcdTimeUnit::MicroSeconds => "us",
        VcdTimeUnit::MilliSeconds => "ms",
        VcdTimeUnit::Seconds => "s",
        VcdTimeUnit::Unknown => "unknown",
    }
}

/// First and last entry of a time table (0 when empty; the last defaults to the first).
pub open spec fn table_bounds(tt: Seq<u64>) -> (u64, u64) {
    if tt.len() == 0 {
        (0, 0)
    } else {
        (tt[0], tt.last())
    }
}

/// `x` clamped to `[lo, hi]`.
pub open spec fn clamp_u64(x: u64, lo: u64, hi: u64) -> u64 {
    if x < lo { lo } else if x > hi { hi } else { x }
}

/// The query window: the requested interval (either order) clamped to the time table; a
/// window of width zero is widened by one step inside the table where possible.
pub open spec fn query_window_spec(t_start: u64, t_end: u64, tt: Seq<u64>) -> (u64, u64) {
    let (lo, hi) = table_bounds(tt);
    let raw0 = if t_start <= t_end { t_start } else { t_end };
    let raw1 = if t_start <= t_end { t_end } else { t_start };
    let a = clamp_u64(raw0, lo, hi);
    let b = clamp_u64(raw1, lo, hi);
    let (q0, q1) = if b < a { (b, a) } else { (a, b) };
    let q1b: u64 = if q1 <= q0 { if q0 + 1 <= hi { (q0 + 1) as u64 } else { hi } } else { q1 };
    let q0b: u64 = if q1b <= q0 {
        let s = sat_sub_u64(q1b, 1);
        if s >= lo { s } else { lo }
    } else {
        q0
    };
    (q0b, q1b)
}

/// The window of a trace query (see [`query_window_spec`]). The time table's first time is at
/// most its last, and the earlier requested time, clamped to the table, is below `u64::MAX`.
pub fn query_window(t_start: u64, t_end: u64, time_table: &Vec<u64>) -> (r: (u64, u64))
    requires
        table_bounds(time_table@).0 <= table_bounds(time_table@).1,
        clamp_u64(
            if t_start <= t_end { t_start } else { t_end },
            table_bounds(time_table@).0,
            table_bounds(time_table@).1,
        ) < u64::MAX,
    ensures
        r == query_window_spec(t_start, t_end, time_table@),
{
    let tt_min: u64 = if time_table.len() > 0 { time_table[0] } else { 0 };
    let tt_max: u64 = if time_table.len() > 0 { time_table[time_table.len() - 1] } else { tt_min };
    let raw0 = if t_start <= t_end { t_start } else { t_end };
    let raw1 = if t_start <= t_end { t_end } else { t_start };
    let mut q0 = if raw0 < tt_min { tt_min } else if raw0 > tt_max { tt_max } else { raw0 };
    let mut q1 = if raw1 < tt_min { tt_min } else if raw1 > tt_max { tt_max } else { raw1 };
    if q1 < q0 {
        let tmp = q0;
        q0 = q1;
        q1 = tmp;
    }
    if q1 <= q0 {
        q1 = if q0 + 1 <= tt_max { q0 + 1 } else { tt_max };
    }
    if q1 <= q0 {
        let s = if q1 < 1 { 0 } else { q1 - 1 };
        q0 = if s >= tt_min { s } else { tt_min };
    }
    (q0, q1)
}

/// A value change of a trace: index into the time table, value text.
pub open spec fn cview(c: (u32, String)) -> (u32, Seq<char>) {
    (c.0, c.1@)
}

/// After the first `n` changes: the samples inside the window, the last value before it, and
/// whether a change after the window has been seen (which ends the scan).
pub open spec fn window_state(
    changes: Seq<(u32, Seq<char>)>,
    tt: Seq<u64>,
    ts: u64,
    te: u64,
    sid: u32,
    n: nat,
) -> (Seq<(u32, u64, Seq<char>)>, Option<Seq<char>>, bool)
    decreases n,
{
    if n == 0 {
        (seq![], None, false)
    } else {
        let (loc, before, stop) = window_state(changes, tt, ts, te, sid, (n - 1) as nat);
        let (ti, v) = changes[n - 1];
        if stop || ti >= tt.len() {
            (loc, before, stop)
        } else {
            let t = tt[ti as int];
            if t < ts {
                (loc, Some(v), false)
            } else if t > te {
                (loc, before, true)
            } else {
                (loc.push((sid, t, v)), before, false)
            }
        }
    }
}

/// The samples of one trace in `[ts, te]` (changes whose time index is outside the table are
/// skipped), with the value holding at `ts` put first at time `ts` when no sample falls there.
pub open spec fn signal_window_spec(changes: Seq<(u32, Seq<char>)>, tt: Seq<u64>, ts: u64, te: u64, sid: u32) -> Seq<(u32, u64, Seq<char>)> {
    let (loc, before, _) = window_state(changes, tt, ts, te, sid, changes.len());
    match before {
        Some(v) => if loc.len() == 0 {
            seq![(sid, ts, v)]
        } else if loc[0].1 > ts {
            seq![(sid, ts, v)] + loc
        } else {
            loc
        },
        None => loc,
    }
}

/// The samples of one trace inside the query window (see [`signal_window_spec`]).
pub fn signal_window(sid: u32, changes: &Vec<(u32, String)>, time_table: &Vec<u64>, t_start: u64, t_end: u64) -> (r: Vec<VcdTransition>)
    ensures
        tviews(r@) == signal_window_spec(changes@.map_values(|c: (u32, String)| cview(c)), time_table@, t_start, t_end, sid),
{
    let ghost cs = changes@.map_values(|c: (u32, String)| cview(c));
    let mut local: Vec<VcdTransition> = Vec::new();
    let mut before: Option<String> = None;
    let mut stop = false;
    let mut i: usize = 0;
    while i < changes.len()
        invariant
            i <= changes.len(),
            cs == changes@.map_values(|c: (u32, String)| cview(c)),
            ({
                let st = window_state(cs, time_table@, t_start, t_end, sid, i as nat);
                &&& tviews(local@) == st.0
                &&& opt_view(before) == st.1
                &&& stop == st.2
            }),
        decreases changes.len() - i,
    {
        let ti = changes[i].0;
        if !stop && (ti as usize) < time_table.len() {
            let t = time_table[ti as usize];
            if t < t_start {
                before = Some(changes[i].1.clone());
            } else if t > t_end {
                stop = true;
            } else {
                let ghost prev = local@;
                local.push(VcdTransition { signal_id: sid, time: t, value: changes[i].1.clone() });
                assert(tviews(local@) =~= tviews(prev).push((sid, t, changes@[i as int].1@)));
            }
        }
        i = i + 1;
    }
    match before {
        Some(v) => {
            if local.len() == 0 {
                local.push(VcdTransition { signal_id: sid, time: t_start, value: v });
                assert(tviews(local@) =~= seq![(sid, t_start, v@)]);
            } else if local[0].time > t_start {
                let ghost prev = local@;
                local.insert(0, VcdTransition { signal_id: sid, time: t_start, value: v });
                assert(tviews(local@) =~= seq![(sid, t_start, v@)] + tviews(prev));
            }
        },
        None => {},
    }
    local
}

/// The view of an optional string.
pub open spec fn opt_view(o: Option<String>) -> Option<Seq<char>> {
    match o {
        Some(s) => Some(s@),
        None => None,
    }
}

/// Thinning of one trace for display: nothing for no samples; resampled at `clamp(width, 32,
/// cap)` columns for a positive plot width (`cap = min(max(points, 32), 1048576)`); unchanged
/// when it has at most `points` samples; otherwise decimated to `points` samples, where
/// `points = max(max_points_per_signal or 65536, 32)`.
pub open spec fn thin_spec(
    local: Seq<(u32, u64, Seq<char>)>,
    ts: u64,
    te: u64,
    sid: u32,
    max_points_per_signal: Option<usize>,
    viewport_width_px: Option<u32>,
) -> Seq<(u32, u64, Seq<char>)> {
    let mp: nat = match max_points_per_signal {
        Some(m) => m as nat,
        None => 65536,
    };
    let max_pts: nat = if mp < 32 { 32 } else { mp };
    if local.len() == 0 {
        seq![]
    } else {
        match viewport_width_px {
            Some(pw) if pw > 0 => {
                let cap: nat = if max_pts > 1048576 { 1048576 } else { max_pts };
                let ncols: nat = if pw < 32 { 32 } else if pw > cap { cap } else { pw as nat };
                resample_spec(local, ts, te, ncols, sid)
            },
            _ => if local.len() <= max_pts {
                local
            } else {
                decimate_spec(local, max_pts, ts, te, sid)
            },
        }
    }
}

/// Thins one trace for display (see [`thin_spec`]).
pub fn thin_transitions(
    local: Vec<VcdTransition>,
    t_start: u64,
    t_end: u64,
    sid: u32,
    max_points_per_signal: Option<usize>,
    viewport_width_px: Option<u32>,
) -> (r: Vec<VcdTransition>)
    ensures
        tviews(r@) == thin_spec(tviews(local@), t_start, t_end, sid, max_points_per_signal, viewport_width_px),
{
    let mp: usize = match max_points_per_signal {
        Some(m) => m,
        None => 65536,
    };
    let max_pts: usize = if mp < 32 { 32 } else { mp };
    if local.len() == 0 {
        return local;
    }
    match viewport_width_px {
        Some(pw) if pw > 0 => {
            let cap: usize = if max_pts > 1048576 { 1048576 } else { max_pts };
            let ncols: usize = if pw < 32 { 32 } else if (pw as usize) > cap { cap } else { pw as usize };
            resample_transitions_for_viewport(&local, t_start, t_end, ncols, sid)
        },
        _ => {
            if local.len() <= max_pts {
                local
            } else {
                decimate_transitions_slice(&local, max_pts, t_start, t_end, sid)
            }
        },
    }
}

/// Samples in display order: by time, then signal; the input order among equals.
pub open spec fn key_le(a: (u32, u64, Seq<char>), b: (u32, u64, Seq<char>)) -> bool {
    a.1 < b.1 || (a.1 == b.1 && a.0 <= b.0)
}

/// `x` inserted into `s` after every sample that does not sort after it.
pub open spec fn insert_stable(s: Seq<(u32, u64, Seq<char>)>, x: (u32, u64, Seq<char>)) -> Seq<(u32, u64, Seq<char>)>
    decreases s.len(),
{
    if s.len() == 0 {
        seq![x]
    } else if key_le(s.last(), x) {
        s.push(x)
    } else {
        insert_stable(s.drop_last(), x).push(s.last())
    }
}

/// Stable sort of samples by time, then signal.
pub open spec fn stable_sort_spec(s: Seq<(u32, u64, Seq<char>)>) -> Seq<(u32, u64, Seq<char>)>
    decreases s.len(),
{
    if s.len() == 0 {
        seq![]
    } else {
        insert_stable(stable_sort_spec(s.drop_last()), s.last())
    }
}

proof fn lemma_insert_stable_at(s: Seq<(u32, u64, Seq<char>)>, x: (u32, u64, Seq<char>), j: int)
    requires
        0 <= j <= s.len(),
        forall|k: int| j <= k < s.len() ==> !key_le(#[trigger] s[k], x),
        j == 0 || key_le(s[j - 1], x),
    ensures
        insert_stable(s, x) == s.take(j).push(x) + s.skip(j),
    decreases s.len() - j,
{
    if j < s.len() {
        let t = s.drop_last();
        assert(!key_le(s.last(), x));
        assert forall|k: int| j <= k < t.len() implies !key_le(#[trigger] t[k], x) by {
            assert(t[k] == s[k]);
        }
        if j > 0 {
            assert(t[j - 1] == s[j - 1]);
        }
        lemma_insert_stable_at(t, x, j);
        assert(t.take(j) == s.take(j));
        assert(insert_stable(s, x) =~= s.take(j).push(x) + s.skip(j));
    } else {
        assert(s.skip(j).len() == 0);
        if s.len() == 0 {
            assert(insert_stable(s, x) =~= s.take(j).push(x) + s.skip(j));
        } else {
            assert(s.take(j) == s);
            assert(insert_stable(s, x) =~= s.take(j).push(x) + s.skip(j));
        }
    }
}

/// Sorts samples by time, then signal, keeping the input order among equals (see
/// [`stable_sort_spec`]).
pub fn sort_transitions(v: Vec<VcdTransition>) -> (r: Vec<VcdTransition>)
    ensures
        tviews(r@) == stable_sort_spec(tviews(v@)),
{
    let ghost vv = tviews(v@);
    let mut out: Vec<VcdTransition> = Vec::new();
    let mut n: usize = 0;
    while n < v.len()
        invariant
            n <= v.len(),
            vv == tviews(v@),
            tviews(out@) == stable_sort_spec(vv.take(n as int)),
        decreases v.len() - n,
    {
        let x = VcdTransition { signal_id: v[n].signal_id, time: v[n].time, value: v[n].value.clone() };
        assert(tview(x) == vv[n as int]);
        let mut j = out.len();
        while j > 0 && !(out[j - 1].time < x.time || (out[j - 1].time == x.time && out[j - 1].signal_id <= x.signal_id))
            invariant
                j <= out.len(),
                forall|k: int| j <= k < out@.len() ==> !key_le(#[trigger] tviews(out@)[k], tview(x)),
            decreases j,
        {
            j = j - 1;
        }
        proof {
            lemma_insert_stable_at(tviews(out@), tview(x), j as int);
            assert(vv.take(n + 1).drop_last() == vv.take(n as int));
            assert(vv.take(n + 1).last() == vv[n as int]);
        }
        let ghost before_out = out@;
        out.insert(j, x);
        assert(tviews(out@) =~= tviews(before_out).take(j as int).push(vv[n as int]) + tviews(before_out).skip(j as int));
        n = n + 1;
    }
    assert(vv.take(n as int) == vv);
    out
}

/// A loaded trace: its signal id and its value changes (index into the time table, value
/// text), in order.
pub struct SignalTrace {
    pub signal_id: u32,
    pub changes: Vec<(u32, String)>,
}

/// The samples of the traces in the window `[ts, te]`, each trace windowed and thinned, trace
/// after trace.
pub open spec fn traces_samples(
    traces: Seq<SignalTrace>,
    tt: Seq<u64>,
    ts: u64,
    te: u64,
    max_points_per_signal: Option<usize>,
    viewport_width_px: Option<u32>,
) -> Seq<(u32, u64, Seq<char>)>
    decreases traces.len(),
{
    if traces.len() == 0 {
        seq![]
    } else {
        let t = traces.last();
        traces_samples(traces.drop_last(), tt, ts, te, max_points_per_signal, viewport_width_px) + thin_spec(
            signal_window_spec(t.changes@.map_values(|c: (u32, String)| cview(c)), tt, ts, te, t.signal_id),
            ts,
            te,
            t.signal_id,
            max_points_per_signal,
            viewport_width_px,
        )
    }
}

/// The answer to a trace query over a loaded waveform: the requested interval clamped to the
/// time table ([`query_window_spec`]); each trace's samples in that window, thinned for
/// display; all of them sorted by time, then signal.
pub fn query_transitions(
    time_table: &Vec<u64>,
    traces: &Vec<SignalTrace>,
    t_start: u64,
    t_end: u64,
    max_points_per_signal: Option<usize>,
    viewport_width_px: Option<u32>,
) -> (r: VcdQueryResponse)
    requires
        table_bounds(time_table@).0 <= table_bounds(time_table@).1,
        clamp_u64(
            if t_start <= t_end { t_start } else { t_end },
            table_bounds(time_table@).0,
            table_bounds(time_table@).1,
        ) < u64::MAX,
    ensures
        ({
            let (ts, te) = query_window_spec(t_start, t_end, time_table@);
            tviews(r.transitions@) == stable_sort_spec(
                traces_samples(traces@, time_table@, ts, te, max_points_per_signal, viewport_width_px),
            )
        }),
{
    let (ts, te) = query_window(t_start, t_end, time_table);
    let mut all: Vec<VcdTransition> = Vec::new();
    let mut i: usize = 0;
    while i < traces.len()
        invariant
            i <= traces.len(),
            (ts, te) == query_window_spec(t_start, t_end, time_table@),
            tviews(all@) == traces_samples(traces@.take(i as int), time_table@, ts, te, max_points_per_signal, viewport_width_px),
        decreases traces.len() - i,
    {
        let sid = traces[i].signal_id;
        let local = signal_window(sid, &traces[i].changes, time_table, ts, te);
        let mut thinned = thin_transitions(local, ts, te, sid, max_points_per_signal, viewport_width_px);
        let ghost before = all@;
        let ghost added = thinned@;
        all.append(&mut thinned);
        proof {
            assert(traces@.take(i + 1).drop_last() =~= traces@.take(i as int));
            assert(traces@.take(i + 1).last() == traces@[i as int]);
            assert(tviews(all@) =~= tviews(before) + tviews(added));
        }
        i = i + 1;
    }
    assert(traces@.take(traces.len() as int) =~= traces@);
    VcdQueryResponse { transitions: sort_transitions(all) }
}

/// Where a trace query goes: no waveform loaded, a waveform other than the one asked for, or
/// the loaded one.
pub enum QuerySession {
    NotLoaded,
    OtherFile,
    Loaded,
}

/// Answers a trace query (see [`query_transitions`]), or refuses it when no waveform, or
/// another one, is loaded.
pub fn vcd_query_answer(
    session: QuerySession,
    time_table: &Vec<u64>,
    traces: &Vec<SignalTrace>,
    t_start: u64,
    t_end: u64,
    max_points_per_signal: Option<usize>,
    viewport_width_px: Option<u32>,
) -> (r: Result<VcdQueryResponse, String>)
    requires
        table_bounds(time_table@).0 <= table_bounds(time_table@).1,
        clamp_u64(
            if t_start <= t_end { t_start } else { t_end },
            table_bounds(time_table@).0,
            table_bounds(time_table@).1,
        ) < u64::MAX,
    ensures
        session is NotLoaded ==> (r matches Err(e) && e@ == "No VCD loaded; open a waveform first"@),
        session is OtherFile ==> (r matches Err(e) && e@ == "VCD session path mismatch; reload waveform"@),
        session is Loaded ==> (r matches Ok(q) && {
            let (ts, te) = query_window_spec(t_start, t_end, time_table@);
            tviews(q.transitions@) == stable_sort_spec(
                traces_samples(traces@, time_table@, ts, te, max_points_per_signal, viewport_width_px),
            )
        }),
{
    match session {
        QuerySession::NotLoaded => Err("No VCD loaded; open a waveform first".to_owned()),
        QuerySession::OtherFile => Err("VCD session path mismatch; reload waveform".to_owned()),
        QuerySession::Loaded => Ok(
            query_transitions(time_table, traces, t_start, t_end, max_points_per_signal, viewport_width_px),
        ),
    }
}

/// `s` with ASCII upper-case letters lowered.
pub open spec fn lower_spec(s: Seq<char>) -> Seq<char> {
    s.map_values(|c: char| ascii_lower(c))
}

/// The edge kind named by `s` in any ASCII case: `rising`, `falling`, anything else `Any`.
pub open spec fn edge_kind_spec(s: Seq<char>) -> EdgeKind {
    if lower_spec(s) == "rising"@ {
        EdgeKind::Rising
    } else if lower_spec(s) == "falling"@ {
        EdgeKind::Falling
    } else {
        EdgeKind::Any
    }
}

/// The edge kind named by `s` (see [`edge_kind_spec`]).
pub fn edge_kind_from_name(s: &str) -> (k: EdgeKind)
    ensures
        k == edge_kind_spec(s@),
{
    let cs = chars_of(s);
    let mut low: Vec<char> = Vec::new();
    let mut i: usize = 0;
    while i < cs.len()
        invariant
            i <= cs.len(),
            cs@ == s@,
            low@ == lower_spec(cs@.take(i as int)),
        decreases cs.len() - i,
    {
        low.push(ascii_lower_char(cs[i]));
        assert(lower_spec(cs@.take(i + 1)) =~= lower_spec(cs@.take(i as int)).push(ascii_lower(cs@[i as int])));
        i = i + 1;
    }
    assert(cs@.take(cs.len() as int) == cs@);
    let l = string_from_chars(&low);
    if l == "rising".to_owned() {
        EdgeKind::Rising
    } else if l == "falling".to_owned() {
        EdgeKind::Falling
    } else {
        EdgeKind::Any
    }
}

/// The `(time, value)` points of a trace: its changes whose time index is inside the table.
pub open spec fn edge_points_spec(changes: Seq<(u32, Seq<char>)>, tt: Seq<u64>) -> Seq<(u64, Seq<char>)>
    decreases changes.len(),
{
    if changes.len() == 0 {
        seq![]
    } else {
        let r = edge_points_spec(changes.drop_last(), tt);
        let (ti, v) = changes.last();
        if ti < tt.len() {
            r.push((tt[ti as int], v))
        } else {
            r
        }
    }
}

/// The `(time, value)` points of a trace (see [`edge_points_spec`]).
pub fn edge_points(changes: &Vec<(u32, String)>, time_table: &Vec<u64>) -> (r: Vec<(u64, String)>)
    ensures
        r@.map_values(|p: (u64, String)| (p.0, p.1@)) == edge_points_spec(
            changes@.map_values(|c: (u32, String)| cview(c)),
            time_table@,
        ),
{
    let ghost cs = changes@.map_values(|c: (u32, String)| cview(c));
    let mut out: Vec<(u64, String)> = Vec::new();
    let mut i: usize = 0;
    while i < changes.len()
        invariant
            i <= changes.len(),
            cs == changes@.map_values(|c: (u32, String)| cview(c)),
            out@.map_values(|p: (u64, String)| (p.0, p.1@)) == edge_points_spec(cs.take(i as int), time_table@),
        decreases changes.len() - i,
    {
        assert(cs.take(i + 1).drop_last() == cs.take(i as int));
        let ti = changes[i].0;
        if (ti as usize) < time_table.len() {
            let ghost before = out@;
            out.push((time_table[ti as usize], changes[i].1.clone()));
            assert(out@.map_values(|p: (u64, String)| (p.0, p.1@)) =~= before.map_values(
                |p: (u64, String)| (p.0, p.1@),
            ).push((time_table@[ti as int], changes@[i as int].1@)));
        }
        i = i + 1;
    }
    assert(cs.take(changes.len() as int) == cs);
    out
}

/// Whether the change into point `i` (from point `i - 1`) is an edge of `kind`: on bit
/// `bit_lsb` for a bus when a bit is given, on the whole value otherwise.
pub open spec fn point_is_edge(points: Seq<(u64, Seq<char>)>, i: int, bits: u32, kind: EdgeKind, bit_lsb: Option<u32>) -> bool {
    match bit_lsb {
        Some(b) if bits > 1 => edge_matches_lsb_spec(points[i - 1].1, points[i].1, bits, b, kind),
        _ => edge_matches_spec(points[i - 1].1, points[i].1, bits, kind),
    }
}

/// Whether point `i` is an edge strictly after (`next`) or before `from_time`.
pub open spec fn edge_candidate(points: Seq<(u64, Seq<char>)>, i: int, bits: u32, from_time: u64, next: bool, kind: EdgeKind, bit_lsb: Option<u32>) -> bool {
    &&& 1 <= i < points.len()
    &&& if next { points[i].0 > from_time } else { points[i].0 < from_time }
    &&& point_is_edge(points, i, bits, kind, bit_lsb)
}

/// The time of the first edge at point `k` or later that lies after `from_time`.
pub open spec fn first_edge_from(points: Seq<(u64, Seq<char>)>, k: int, bits: u32, from_time: u64, kind: EdgeKind, bit_lsb: Option<u32>) -> Option<u64>
    decreases points.len() - k,
{
    if k < 1 || k >= points.len() {
        None
    } else if edge_candidate(points, k, bits, from_time, true, kind, bit_lsb) {
        Some(points[k].0)
    } else {
        first_edge_from(points, k + 1, bits, from_time, kind, bit_lsb)
    }
}

/// The time of the last edge among the first `n` points that lies before `from_time`.
pub open spec fn last_edge_upto(points: Seq<(u64, Seq<char>)>, n: int, bits: u32, from_time: u64, kind: EdgeKind, bit_lsb: Option<u32>) -> Option<u64>
    decreases n,
{
    if n <= 1 || n > points.len() {
        None
    } else if edge_candidate(points, n - 1, bits, from_time, false, kind, bit_lsb) {
        Some(points[n - 1].0)
    } else {
        last_edge_upto(points, n - 1, bits, from_time, kind, bit_lsb)
    }
}

/// The time of the first edge after `from_time` (`next`), or of the last edge before it; `None`
/// when there is none (or fewer than two points).
pub open spec fn find_edge_spec(points: Seq<(u64, Seq<char>)>, bits: u32, from_time: u64, next: bool, kind: EdgeKind, bit_lsb: Option<u32>) -> Option<u64> {
    if points.len() < 2 {
        None
    } else if next {
        first_edge_from(points, 1, bits, from_time, kind, bit_lsb)
    } else {
        last_edge_upto(points, points.len() as int, bits, from_time, kind, bit_lsb)
    }
}

/// The views of a list of points.
pub open spec fn pviews(p: Seq<(u64, String)>) -> Seq<(u64, Seq<char>)> {
    p.map_values(|x: (u64, String)| (x.0, x.1@))
}

/// Whether the change into `points[i]` is an edge (see [`point_is_edge`]).
fn point_edge_exec(points: &Vec<(u64, String)>, i: usize, bits: u32, kind: EdgeKind, bit_lsb: Option<u32>) -> (b: bool)
    requires
        1 <= i < points.len(),
    ensures
        b == point_is_edge(pviews(points@), i as int, bits, kind, bit_lsb),
{
    match bit_lsb {
        Some(b) if bits > 1 => edge_matches_lsb_bit(points[i - 1].1.as_str(), points[i].1.as_str(), bits, b, kind),
        _ => edge_matches(points[i - 1].1.as_str(), points[i].1.as_str(), bits, kind),
    }
}

/// Finds the next or previous edge of a trace (see [`find_edge_spec`]).
pub fn find_edge_time(points: &Vec<(u64, String)>, bits: u32, from_time: u64, next: bool, kind: EdgeKind, bit_lsb: Option<u32>) -> (r: Option<u64>)
    ensures
        r == find_edge_spec(pviews(points@), bits, from_time, next, kind, bit_lsb),
{
    let ghost pv = pviews(points@);
    if points.len() < 2 {
        return None;
    }
    if next {
        let mut i: usize = 1;
        while i < points.len()
            invariant
                1 <= i <= points.len(),
                points.len() >= 2,
                next,
                pv == pviews(points@),
                first_edge_from(pv, 1, bits, from_time, kind, bit_lsb) == first_edge_from(pv, i as int, bits, from_time, kind, bit_lsb),
            decreases points.len() - i,
        {
            let ok = point_edge_exec(points, i, bits, kind, bit_lsb);
            assert(pv[i as int].0 == points@[i as int].0);
            if points[i].0 > from_time && ok {
                assert(edge_candidate(pv, i as int, bits, from_time, true, kind, bit_lsb));
                return Some(points[i].0);
            }
            i = i + 1;
        }
        None
    } else {
        let mut best: Option<u64> = None;
        let mut i: usize = 1;
        while i < points.len()
            invariant
                1 <= i <= points.len(),
                pv == pviews(points@),
                best == last_edge_upto(pv, i as int, bits, from_time, kind, bit_lsb),
            decreases points.len() - i,
        {
            let ok = point_edge_exec(points, i, bits, kind, bit_lsb);
            assert(pv[i as int].0 == points@[i as int].0);
            if points[i].0 < from_time && ok {
                best = Some(points[i].0);
            }
            i = i + 1;
        }
        best
    }
}

/// Answers an edge search on one trace of a loaded waveform: the signal's bit length from the
/// hierarchy ([`bits_for_signal`]), the edge kind from its name ([`edge_kind_spec`]), and the
/// next (or previous) matching change after (or before) `from_time` ([`find_edge_spec`]); a
/// refusal when no waveform, or another one, is loaded, or when the signal has no trace.
pub fn vcd_find_edge_answer(
    session: QuerySession,
    tops: &Vec<HierScope>,
    time_table: &Vec<u64>,
    changes: Option<&Vec<(u32, String)>>,
    signal_id: u32,
    from_time: u64,
    next: bool,
    edge_kind: &str,
    bit_lsb: Option<u32>,
) -> (r: Result<Option<u64>, String>)
    ensures
        session is NotLoaded ==> (r matches Err(e) && e@ == "No VCD loaded; open a waveform first"@),
        session is OtherFile ==> (r matches Err(e) && e@ == "VCD session path mismatch; reload waveform"@),
        session is Loaded && changes is None ==> (r matches Err(e) && e@ == "Signal not found"@),
        session is Loaded && changes is Some ==> r == Ok::<Option<u64>, String>(
            find_edge_spec(
                edge_points_spec(changes->0@.map_values(|c: (u32, String)| cview(c)), time_table@),
                match bits_in_tops(tops@, signal_id) {
                    Some(b) => b,
                    None => 1u32,
                },
                from_time,
                next,
                edge_kind_spec(edge_kind@),
                bit_lsb,
            ),
        ),
{
    match session {
        QuerySession::NotLoaded => {
            return Err("No VCD loaded; open a waveform first".to_owned());
        },
        QuerySession::OtherFile => {
            return Err("VCD session path mismatch; reload waveform".to_owned());
        },
        QuerySession::Loaded => {},
    }
    let bits = bits_for_signal(tops, signal_id);
    let kind = edge_kind_from_name(edge_kind);
    let changes = match changes {
        Some(c) => c,
        None => {
            return Err("Signal not found".to_owned());
        },
    };
    let points = edge_points(changes, time_table);
    assert(pviews(points@) =~= points@.map_values(|p: (u64, String)| (p.0, p.1@)));
    Ok(find_edge_time(&points, bits, from_time, next, kind, bit_lsb))
}

/// Whether an open request must be ignored: a later open (or a close) came after it.
pub open spec fn open_superseded(open_seq: u64, max_open_seq: u64) -> bool {
    open_seq < max_open_seq
}

/// What opening the waveform at `path` reports: its first and last times (0 for an empty time
/// table), its time scale (factor and unit label) when the file gives one, its scope tree, and
/// whether the request was superseded by a later one (`open_seq` below the latest sequence
/// number seen, `max_open_seq`).
pub fn vcd_open_response(
    path: String,
    time_table: &Vec<u64>,
    timescale: Option<(u32, VcdTimeUnit)>,
    tops: &Vec<HierScope>,
    open_seq: u64,
    max_open_seq: u64,
) -> (r: VcdOpenResponse)
    ensures
        r.superseded == open_superseded(open_seq, max_open_seq),
        r.path == path,
        r.time_start == (if time_table@.len() == 0 { 0 } else { time_table@[0] }),
        r.time_end == (if time_table@.len() == 0 { 0 } else { time_table@.last() }),
        r.timescale_factor == match timescale {
            Some(t) => Some(t.0),
            None => None::<u32>,
        },
        opt_view(r.timescale_unit) == match timescale {
            Some(t) => Some(unit_label_spec(t.1)),
            None => None::<Seq<char>>,
        },
        r.hierarchy@.len() == tops@.len(),
        forall|i: int| 0 <= i < tops@.len() ==> subtree_rel(tops@[i], #[trigger] r.hierarchy@[i]),
{
    let time_start: u64 = if time_table.len() > 0 { time_table[0] } else { 0 };
    let time_end: u64 = if time_table.len() > 0 { time_table[time_table.len() - 1] } else { 0 };
    let (timescale_factor, timescale_unit) = match timescale {
        Some((f, u)) => (Some(f), Some(timescale_unit_label(u).to_owned())),
        None => (None, None),
    };
    VcdOpenResponse {
        superseded: open_seq < max_open_seq,
        path,
        time_start,
        time_end,
        timescale_factor,
        timescale_unit,
        hierarchy: hierarchy_tree(tops),
    }
}

} // verus!
