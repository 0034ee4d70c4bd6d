//! `` `timescale`` unit vs precision and the simulation clock grid.
use vstd::prelude::*;
use crate::strutil::{all_digits, chars_of, digits_value, is_digit, is_ws, char_is_ws, parse_u128, parse_unsigned_spec, slice_chars, strip_plus};
use crate::delay_rational::{sat_mul_spec, sat_mul_u128};

verus! {

/// `s` with every whitespace character removed.
pub open spec fn remove_ws_spec(s: Seq<char>) -> Seq<char>
    decreases s.len(),
{
    if s.len() == 0 {
        s
    } else if is_ws(s.last()) {
        remove_ws_spec(s.drop_last())
    } else {
        remove_ws_spec(s.drop_last()).push(s.last())
    }
}

/// ASCII letter.
pub open spec fn is_ascii_alpha(c: char) -> bool {
    ('a' <= c && c <= 'z') || ('A' <= c && c <= 'Z')
}

/// ASCII lower-casing of one character (`char::to_ascii_lowercase`).
pub open spec fn ascii_lower(c: char) -> char {
    if 'A' <= c && c <= 'Z' { ((c as u32) + 32) as char } else { c }
}

/// Index of the first ASCII letter of `s`, if any.
pub open spec fn first_alpha_spec(s: Seq<char>) -> Option<int>
    decreases s.len(),
{
    if s.len() == 0 {
        None
    } else if is_ascii_alpha(s[0]) {
        Some(0)
    } else {
        match first_alpha_spec(s.drop_first()) {
            Some(i) => Some(i + 1),
            None => None,
        }
    }
}

/// Femtoseconds in one unit named by `u` (compared without regard to ASCII case).
pub open spec fn unit_multiplier_spec(u: Seq<char>) -> Option<nat> {
    let l = u.map_values(|c: char| ascii_lower(c));
    if l == seq!['s'] {
        Some(1_000_000_000_000_000)
    } else if l == seq!['m', 's'] {
        Some(1_000_000_000_000)
    } else if l == seq!['u', 's'] {
        Some(1_000_000_000)
    } else if l == seq!['n', 's'] {
        Some(1_000_000)
    } else if l == seq!['p', 's'] {
        Some(1_000)
    } else if l == seq!['f', 's'] {
        Some(1)
    } else {
        None
    }
}

/// Femtoseconds for one Verilog time literal (`1ns`, `100 ms`, ...): whitespace is ignored, the
/// magnitude is the digits before the first letter (non-zero), and the unit one of
/// `s ms us ns ps fs`; the product saturates at `u128::MAX`.
pub open spec fn token_fs_spec(s: Seq<char>) -> Option<nat> {
    let c = remove_ws_spec(s);
    match first_alpha_spec(c) {
        None => None,
        Some(idx) => match parse_unsigned_spec(c.take(idx), u128::MAX as nat) {
            None => None,
            Some(n) => if n == 0 {
                None
            } else {
                match unit_multiplier_spec(c.skip(idx)) {
                    Some(m) => Some(sat_mul_spec(n, m)),
                    None => None,
                }
            },
        },
    }
}

pub fn remove_ws(v: &[char]) -> (r: Vec<char>)
    ensures
        r@ == remove_ws_spec(v@),
{
    let mut r: Vec<char> = Vec::new();
    let mut i: usize = 0;
    while i < v.len()
        invariant
            i <= v.len(),
            r@ == remove_ws_spec(v@.take(i as int)),
        decreases v.len() - i,
    {
        assert(v@.take(i + 1).drop_last() == v@.take(i as int));
        if !char_is_ws(v[i]) {
            r.push(v[i]);
        }
        i = i + 1;
    }
    assert(v@.take(v.len() as int) == v@);
    r
}

fn first_alpha(v: &[char]) -> (r: Option<usize>)
    ensures
        match r {
            Some(i) => i < v.len() && first_alpha_spec(v@) == Some(i as int),
            None => first_alpha_spec(v@) is None,
        },
{
    let mut i: usize = 0;
    assert(v@.skip(0) == v@);
    while i < v.len()
        invariant
            i <= v.len(),
            first_alpha_spec(v@) == match first_alpha_spec(v@.skip(i as int)) {
                Some(k) => Some(k + i),
                None => None::<int>,
            },
        decreases v.len() - i,
    {
        let c = v[i];
        if ('a' <= c && c <= 'z') || ('A' <= c && c <= 'Z') {
            return Some(i);
        }
        assert(v@.skip(i as int).drop_first() == v@.skip(i + 1));
        i = i + 1;
    }
    None
}

pub fn ascii_lower_char(c: char) -> (r: char)
    ensures
        r == ascii_lower(c),
{
    if 'A' <= c && c <= 'Z' {
        let code: u32 = (c as u32) + 32;
        assert(('a' as u32) <= code <= ('z' as u32));
        char_from_ascii_code(code)
    } else {
        c
    }
}

/// The character with code `code` (an ASCII lower-case letter).
fn char_from_ascii_code(code: u32) -> (c: char)
    requires
        ('a' as u32) <= code <= ('z' as u32),
    ensures
        c == code as char,
{
    let b: u8 = code as u8;
    b as char
}

fn unit_multiplier(u: &[char]) -> (r: Option<u128>)
    ensures
        match unit_multiplier_spec(u@) {
            Some(m) => r == Some(m as u128),
            None => r is None,
        },
{
    let mut l: Vec<char> = Vec::new();
    let mut i: usize = 0;
    while i < u.len()
        invariant
            i <= u.len(),
            l@ == u@.take(i as int).map_values(|c: char| ascii_lower(c)),
        decreases u.len() - i,
    {
        let lc = ascii_lower_char(u[i]);
        l.push(lc);
        assert(u@.take(i + 1).map_values(|c: char| ascii_lower(c))
            == u@.take(i as int).map_values(|c: char| ascii_lower(c)).push(lc));
        i = i + 1;
    }
    assert(u@.take(u.len() as int) == u@);
    let ghost ls = u@.map_values(|c: char| ascii_lower(c));
    assert(l@ == ls);
    if l.len() == 1 && l[0] == 's' {
        assert(ls == seq!['s']);
        return Some(1_000_000_000_000_000);
    }
    if l.len() == 2 && l[1] == 's' {
        let a = l[0];
        if a == 'm' {
            assert(ls == seq!['m', 's']);
            return Some(1_000_000_000_000);
        } else if a == 'u' {
            assert(ls == seq!['u', 's']);
            return Some(1_000_000_000);
        } else if a == 'n' {
            assert(ls == seq!['n', 's']);
            return Some(1_000_000);
        } else if a == 'p' {
            assert(ls == seq!['p', 's']);
            return Some(1_000);
        } else if a == 'f' {
            assert(ls == seq!['f', 's']);
            return Some(1);
        }
    }
    assert(ls != seq!['s'] && ls != seq!['m', 's'] && ls != seq!['u', 's'] && ls != seq!['n', 's']
        && ls != seq!['p', 's'] && ls != seq!['f', 's']) by {
        if ls.len() == 2 {
            assert(ls[1] == l@[1]);
        }
    }
    None
}

/// Femtoseconds for one Verilog time-literal token (`1ns`, `100 ms`, ...).
pub fn timescale_token_to_fs(s: &str) -> (r: Option<u128>)
    ensures
        match token_fs_spec(s@) {
            Some(v) => r == Some(v as u128),
            None => r is None,
        },
{
    let all = chars_of(s);
    let compact = remove_ws(&all);
    if compact.len() == 0 {
        assert(first_alpha_spec(compact@) is None);
        return None;
    }
    let idx = match first_alpha(&compact) {
        Some(i) => i,
        None => { return None; },
    };
    let digits = slice_chars(&compact, 0, idx);
    assert(digits@ == compact@.take(idx as int));
    let n = match parse_u128(&digits) {
        Some(n) => n,
        None => { return None; },
    };
    if n == 0 {
        return None;
    }
    let unit = slice_chars(&compact, idx, compact.len());
    assert(unit@ == compact@.skip(idx as int));
    match unit_multiplier(&unit) {
        Some(m) => Some(sat_mul_u128(n, m)),
        None => None,
    }
}

/// One second in femtoseconds.
pub const ONE_SECOND_FS: u128 = 1_000_000_000_000_000;

/// How many `` `timescale`` precision steps fit in one time unit; `1` when either token is
/// invalid or the unit is finer than the precision.
pub open spec fn unit_per_precision_spec(u: Seq<char>, p: Seq<char>) -> nat {
    match (token_fs_spec(u), token_fs_spec(p)) {
        (Some(uf), Some(pf)) => if pf == 0 || uf < pf {
            1
        } else if uf / pf > usize::MAX {
            usize::MAX as nat
        } else {
            uf / pf
        },
        _ => 1,
    }
}

/// How many `` `timescale`` **precision** steps fit in one **time unit**.
/// Returns `1` when operands are missing or invalid.
pub fn unit_per_precision_ratio(time_unit: &str, time_precision: &str) -> (r: usize)
    ensures
        r == unit_per_precision_spec(time_unit@, time_precision@),
        r >= 1,
{
    let uf = match timescale_token_to_fs(time_unit) {
        Some(v) => v,
        None => { return 1; },
    };
    let pf = match timescale_token_to_fs(time_precision) {
        Some(v) => v,
        None => { return 1; },
    };
    if pf == 0 || uf < pf {
        return 1;
    }
    let q = uf / pf;
    assert(q >= 1) by {
        vstd::arithmetic::div_mod::lemma_div_non_zero(uf as int, pf as int);
    }
    if q > usize::MAX as u128 { usize::MAX } else { q as usize }
}

/// `min(a * b, usize::MAX)`.
pub open spec fn sat_mul_usize_spec(a: nat, b: nat) -> nat {
    if a * b > usize::MAX { usize::MAX as nat } else { a * b }
}

/// `a * b`, or `usize::MAX` when the product does not fit.
pub fn sat_mul_usize(a: usize, b: usize) -> (r: usize)
    ensures
        r == sat_mul_usize_spec(a as nat, b as nat),
{
    match a.checked_mul(b) {
        Some(p) => p,
        None => usize::MAX,
    }
}

/// Whether the `` `timescale`` unit is at least one second.
pub open spec fn coarse_unit_spec(time_unit: Seq<char>) -> bool {
    match token_fs_spec(time_unit) {
        Some(f) => f >= ONE_SECOND_FS,
        None => false,
    }
}

/// Kernel clock half-period in **precision** (fine) ticks: `max(units,1) * max(k,1)`
/// (saturating), except that an implicit half-period with a unit of one second or more and a
/// finer precision uses 5 precision steps.
/// The clock half-period on the precision grid: 5 steps for an implicit half-period with a
/// unit of a second or more and a finer precision; else the half-period (at least 1) times the
/// steps per unit (at least 1), saturating.
pub open spec fn half_period_fine_spec(units: usize, k: nat, explicit: bool, unit: Seq<char>) -> nat {
    if !explicit && coarse_unit_spec(unit) && k > 1 {
        5
    } else {
        sat_mul_usize_spec(if units < 1 { 1 } else { units as nat }, if k < 1 { 1 } else { k })
    }
}

pub fn clock_half_period_fine_ticks(
    clock_half_period_units: usize,
    k: usize,
    clock_half_period_explicit: bool,
    time_unit: &str,
) -> (r: usize)
    ensures
        r == half_period_fine_spec(clock_half_period_units, k as nat, clock_half_period_explicit, time_unit@),
        r >= 1,
{
    let k1 = if k < 1 { 1 } else { k };
    let user = if clock_half_period_units < 1 { 1 } else { clock_half_period_units };
    let coarse = match timescale_token_to_fs(time_unit) {
        Some(f) => f >= ONE_SECOND_FS,
        None => false,
    };
    if !clock_half_period_explicit && coarse && k1 > 1 {
        5
    } else {
        assert(user * k1 >= 1) by (nonlinear_arith)
            requires user >= 1, k1 >= 1;
        sat_mul_usize(user, k1)
    }
}

/// `ceil(a / b)` (and `a` itself when `b == 0`).
pub open spec fn div_ceil_spec(a: nat, b: nat) -> nat {
    if b == 0 { a } else { ((a + b - 1) as nat) / b }
}

/// `ceil(a / b)`; `a` when `b` is zero.
pub fn div_ceil(a: usize, b: usize) -> (r: usize)
    ensures
        r == div_ceil_spec(a as nat, b as nat),
{
    if b == 0 {
        return a;
    }
    let q = a / b;
    let ghost an = a as nat;
    let ghost bn = b as nat;
    let ghost m = ((an + bn - 1) as nat) / bn;
    proof {
        vstd::arithmetic::div_mod::lemma_fundamental_div_mod(an as int, bn as int);
        vstd::arithmetic::div_mod::lemma_fundamental_div_mod((an + bn - 1) as int, bn as int);
    }
    if a % b != 0 {
        assert(q < usize::MAX) by (nonlinear_arith)
            requires an == bn * q + an % bn, an % bn != 0, bn >= 1, q >= 0, an % bn >= 0, an <= usize::MAX;
        assert(m == q + 1) by (nonlinear_arith)
            requires an == bn * q + an % bn, 0 < an % bn < bn, m == ((an + bn - 1) as nat) / bn,
                (an + bn - 1) == bn * m + ((an + bn - 1) as nat) % bn,
                ((an + bn - 1) as nat) % bn < bn;
        q + 1
    } else {
        assert(m == q) by (nonlinear_arith)
            requires an == bn * q, bn >= 1, m == ((an + bn - 1) as nat) / bn,
                (an + bn - 1) == bn * m + ((an + bn - 1) as nat) % bn,
                ((an + bn - 1) as nat) % bn < bn;
        q
    }
}

/// Number of clock periods covering `delay_sum_units` time units on a grid of `k` precision
/// steps per unit and half-period `h_fine` steps; `100` when there is no delay.
pub open spec fn cycles_fine_spec(delay_sum_units: nat, k: nat, h_fine: nat) -> nat {
    if delay_sum_units == 0 {
        100
    } else {
        let kk = if k < 1 { 1 } else { k };
        let h = if h_fine < 1 { 1 } else { h_fine };
        let c = div_ceil_spec(sat_mul_usize_spec(delay_sum_units, kk), sat_mul_usize_spec(2, h));
        if c < 1 { 1 } else { c }
    }
}

/// Like `num_cycles_from_initial_delay_sum` but delays are in **time units** and the clock grid
/// is in **precision** ticks (`h_fine`).
pub fn num_cycles_from_initial_delay_sum_fine(delay_sum_units: usize, k: usize, h_fine: usize) -> (r: usize)
    ensures
        r == cycles_fine_spec(delay_sum_units as nat, k as nat, h_fine as nat),
        r >= 1,
{
    if delay_sum_units == 0 {
        return 100;
    }
    let k1 = if k < 1 { 1 } else { k };
    let h = if h_fine < 1 { 1 } else { h_fine };
    let delay_fine = sat_mul_usize(delay_sum_units, k1);
    let period_fine = sat_mul_usize(2, h);
    let c = div_ceil(delay_fine, period_fine);
    if c < 1 { 1 } else { c }
}

/// Removing whitespace leaves a text without whitespace as it is.
proof fn lemma_remove_ws_none(s: Seq<char>)
    requires
        forall|i: int| 0 <= i < s.len() ==> !is_ws(#[trigger] s[i]),
    ensures
        remove_ws_spec(s) == s,
    decreases s.len(),
{
    if s.len() > 0 {
        lemma_remove_ws_none(s.drop_last());
        assert(s.drop_last().push(s.last()) =~= s);
    }
}

/// The first letter of digits followed by a letter is the one after the digits.
proof fn lemma_first_alpha_after_digits(d: Seq<char>, u: Seq<char>)
    requires
        all_digits(d),
        u.len() > 0,
        is_ascii_alpha(u[0]),
    ensures
        first_alpha_spec(d + u) == Some(d.len() as int),
    decreases d.len(),
{
    if d.len() == 0 {
        assert(d + u =~= u);
    } else {
        assert(is_digit(d[0]));
        assert((d + u).drop_first() =~= d.drop_first() + u);
        lemma_first_alpha_after_digits(d.drop_first(), u);
    }
}

/// A time literal of digits `d` and a unit `u` of ASCII letters is worth `d` times the unit.
proof fn lemma_token_fs(d: Seq<char>, u: Seq<char>)
    requires
        d.len() > 0,
        all_digits(d),
        0 < digits_value(d) <= u128::MAX,
        u.len() > 0,
        forall|i: int| 0 <= i < u.len() ==> is_ascii_alpha(#[trigger] u[i]),
    ensures
        token_fs_spec(d + u) == (match unit_multiplier_spec(u) {
            Some(m) => Some(sat_mul_spec(digits_value(d), m)),
            None => None,
        }),
{
    let c = d + u;
    assert forall|i: int| 0 <= i < c.len() implies !is_ws(#[trigger] c[i]) by {
        if i < d.len() {
            assert(is_digit(d[i]));
        } else {
            assert(c[i] == u[i - d.len()]);
        }
    }
    lemma_remove_ws_none(c);
    lemma_first_alpha_after_digits(d, u);
    assert(c.take(d.len() as int) =~= d);
    assert(c.skip(d.len() as int) =~= u);
    assert(is_digit(d[0]));
    assert(strip_plus(d) == d);
}

/// The time units are the SI ones, each 1000 times the next finer: a literal of a non-zero
/// magnitude `n` is worth `n` femtoseconds in `fs`, `1000 n` in `ps`, `10^6 n` in `ns`,
/// `10^9 n` in `us`, `10^12 n` in `ms` and `10^15 n` in `s`.
pub proof fn law_time_units(d: Seq<char>)
    requires
        d.len() > 0,
        all_digits(d),
        digits_value(d) > 0,
        digits_value(d) * 1_000_000_000_000_000 <= u128::MAX,
    ensures
        token_fs_spec(d + seq!['f', 's']) == Some(digits_value(d)),
        token_fs_spec(d + seq!['p', 's']) == Some(1000 * digits_value(d)),
        token_fs_spec(d + seq!['n', 's']) == Some(1000 * 1000 * digits_value(d)),
        token_fs_spec(d + seq!['u', 's']) == Some(1000 * 1000 * 1000 * digits_value(d)),
        token_fs_spec(d + seq!['m', 's']) == Some(1000 * 1000 * 1000 * 1000 * digits_value(d)),
        token_fs_spec(d + seq!['s']) == Some(1000 * 1000 * 1000 * 1000 * 1000 * digits_value(d)),
{
    let v = digits_value(d);
    let fs = seq!['f', 's'];
    let ps = seq!['p', 's'];
    let ns = seq!['n', 's'];
    let us = seq!['u', 's'];
    let ms = seq!['m', 's'];
    let sec = seq!['s'];
    assert(fs.map_values(|c: char| ascii_lower(c)) =~= fs);
    assert(ps.map_values(|c: char| ascii_lower(c)) =~= ps);
    assert(ns.map_values(|c: char| ascii_lower(c)) =~= ns);
    assert(us.map_values(|c: char| ascii_lower(c)) =~= us);
    assert(ms.map_values(|c: char| ascii_lower(c)) =~= ms);
    assert(sec.map_values(|c: char| ascii_lower(c)) =~= sec);
    assert(fs[0] == 'f' && ps[0] == 'p' && ns[0] == 'n' && us[0] == 'u' && ms[0] == 'm' && sec.len() == 1);
    assert(fs != sec && fs != ms && fs != us && fs != ns && fs != ps);
    assert(ps != sec && ps != ms && ps != us && ps != ns);
    assert(ns != sec && ns != ms && ns != us);
    assert(us != sec && us != ms);
    assert(ms != sec);
    assert(unit_multiplier_spec(fs) == Some(1nat));
    assert(unit_multiplier_spec(ps) == Some(1000nat));
    assert(unit_multiplier_spec(ns) == Some(1_000_000nat));
    assert(unit_multiplier_spec(us) == Some(1_000_000_000nat));
    assert(unit_multiplier_spec(ms) == Some(1_000_000_000_000nat));
    assert(unit_multiplier_spec(sec) == Some(1_000_000_000_000_000nat));
    lemma_token_fs(d, fs);
    lemma_token_fs(d, ps);
    lemma_token_fs(d, ns);
    lemma_token_fs(d, us);
    lemma_token_fs(d, ms);
    lemma_token_fs(d, sec);
    assert(v * 1 == v && v * 1000 == 1000 * v && v * 1_000_000 == 1000 * 1000 * v && v * 1_000_000_000 == 1000 * 1000 * 1000 * v
        && v * 1_000_000_000_000 == 1000 * 1000 * 1000 * 1000 * v && v * 1_000_000_000_000_000 == 1000 * 1000 * 1000 * 1000
        * 1000 * v) by (nonlinear_arith);
    assert(v * 1000 <= u128::MAX && v * 1_000_000 <= u128::MAX && v * 1_000_000_000 <= u128::MAX && v * 1_000_000_000_000
        <= u128::MAX) by (nonlinear_arith)
        requires
            v * 1_000_000_000_000_000 <= u128::MAX,
            v >= 0,
    ;
}

/// A time unit holds 1000 steps of the next finer unit of the same magnitude, and one step of
/// itself.
pub proof fn law_adjacent_unit_ratio(d: Seq<char>)
    requires
        d.len() > 0,
        all_digits(d),
        digits_value(d) > 0,
        digits_value(d) * 1_000_000_000_000_000 <= u128::MAX,
    ensures
        unit_per_precision_spec(d + seq!['s'], d + seq!['m', 's']) == 1000,
        unit_per_precision_spec(d + seq!['m', 's'], d + seq!['u', 's']) == 1000,
        unit_per_precision_spec(d + seq!['u', 's'], d + seq!['n', 's']) == 1000,
        unit_per_precision_spec(d + seq!['n', 's'], d + seq!['p', 's']) == 1000,
        unit_per_precision_spec(d + seq!['p', 's'], d + seq!['f', 's']) == 1000,
        unit_per_precision_spec(d + seq!['n', 's'], d + seq!['n', 's']) == 1,
{
    law_time_units(d);
    let v = digits_value(d) as int;
    assert(1000 * v > 0 && 1000 * 1000 * v > 0 && 1000 * 1000 * 1000 * v > 0 && 1000 * 1000 * 1000 * 1000 * v > 0)
        by (nonlinear_arith)
        requires
            v > 0,
    ;
    vstd::arithmetic::div_mod::lemma_div_multiples_vanish(1000, v);
    vstd::arithmetic::div_mod::lemma_div_multiples_vanish(1000, 1000 * v);
    vstd::arithmetic::div_mod::lemma_div_multiples_vanish(1000, 1000 * 1000 * v);
    vstd::arithmetic::div_mod::lemma_div_multiples_vanish(1000, 1000 * 1000 * 1000 * v);
    vstd::arithmetic::div_mod::lemma_div_multiples_vanish(1000, 1000 * 1000 * 1000 * 1000 * v);
    assert(1000 * (1000 * v) == 1000 * 1000 * v && 1000 * (1000 * 1000 * v) == 1000 * 1000 * 1000 * v && 1000 * (1000
        * 1000 * 1000 * v) == 1000 * 1000 * 1000 * 1000 * v && 1000 * (1000 * 1000 * 1000 * 1000 * v) == 1000 * 1000
        * 1000 * 1000 * 1000 * v && 1000 * v == v * 1000) by (nonlinear_arith);
    vstd::arithmetic::div_mod::lemma_div_by_self(1000 * 1000 * v);
}

/// Units are read without regard to ASCII case: `10NS`, `10Ns` and `10ns` are worth the same.
pub proof fn law_units_ignore_case(d: Seq<char>, u: Seq<char>)
    requires
        d.len() > 0,
        all_digits(d),
        0 < digits_value(d) <= u128::MAX,
        u.len() > 0,
        forall|i: int| 0 <= i < u.len() ==> is_ascii_alpha(#[trigger] u[i]),
    ensures
        token_fs_spec(d + u) == token_fs_spec(d + u.map_values(|c: char| ascii_lower(c))),
{
    let lu = u.map_values(|c: char| ascii_lower(c));
    assert forall|i: int| 0 <= i < lu.len() implies is_ascii_alpha(#[trigger] lu[i]) by {
        assert(lu[i] == ascii_lower(u[i]));
    }
    lemma_token_fs(d, u);
    lemma_token_fs(d, lu);
    assert(lu.map_values(|c: char| ascii_lower(c)) =~= lu) by {
        assert forall|i: int| 0 <= i < lu.len() implies ascii_lower(#[trigger] lu[i]) == lu[i] by {
            assert(lu[i] == ascii_lower(u[i]));
        }
    }
}

} // verus!
