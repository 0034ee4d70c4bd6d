//! Constant evaluation of parameter expressions and Verilog number literals.
use vstd::prelude::*;
use vstd::arithmetic::power2::pow2;
use crate::parser::{BinaryOp, Expr, UnaryOp};
use crate::strutil::{chars_of, find_char, find_char_spec, parse_u128, parse_unsigned_spec, slice_chars};
use crate::arith::{sign_extend_i64, sign_extend_spec, floor_shr_spec, arith_shr_i64};

verus! {

/// Parameter environment: `(name, value)` bindings; a later binding of a name hides earlier ones.
pub type ParamEnv = Vec<(String, i64)>;

/// Value bound to `name` in `env` (the last binding wins).
pub open spec fn env_lookup(env: Seq<(String, i64)>, name: Seq<char>) -> Option<i64>
    decreases env.len(),
{
    if env.len() == 0 {
        None
    } else if env.last().0@ == name {
        Some(env.last().1)
    } else {
        env_lookup(env.drop_last(), name)
    }
}

/// Value bound to `name` in `env` (the last binding wins).
pub fn env_get(env: &ParamEnv, name: &String) -> (r: Option<i64>)
    ensures
        r == env_lookup(env@, name@),
{
    let mut i = env.len();
    assert(env@.take(i as int) == env@);
    while i > 0
        invariant
            i <= env.len(),
            env_lookup(env@, name@) == env_lookup(env@.take(i as int), name@),
        decreases i,
    {
        assert(env@.take(i as int).drop_last() == env@.take(i - 1));
        if env[i - 1].0 == *name {
            return Some(env[i - 1].1);
        }
        i = i - 1;
    }
    None
}

/// `s` without `_` separators.
pub open spec fn strip_underscores(s: Seq<char>) -> Seq<char>
    decreases s.len(),
{
    if s.len() == 0 {
        s
    } else if s.last() == '_' {
        strip_underscores(s.drop_last())
    } else {
        strip_underscores(s.drop_last()).push(s.last())
    }
}

/// Radix named by a base letter (`b o d h`, either case).
pub open spec fn radix_of(c: char) -> Option<nat> {
    if c == 'b' || c == 'B' { Some(2) }
    else if c == 'o' || c == 'O' { Some(8) }
    else if c == 'd' || c == 'D' { Some(10) }
    else if c == 'h' || c == 'H' { Some(16) }
    else { None }
}

/// Value of one literal digit in `radix`; `x`, `z`, `?` and characters that are not digits of
/// the radix count as zero bits.
pub open spec fn literal_digit(c: char, radix: nat) -> nat {
    let v: nat = if '0' <= c && c <= '9' {
        (c as u32 - '0' as u32) as nat
    } else if 'a' <= c && c <= 'f' {
        (c as u32 - 'a' as u32 + 10) as nat
    } else if 'A' <= c && c <= 'F' {
        (c as u32 - 'A' as u32 + 10) as nat
    } else {
        radix
    };
    if v < radix { v } else { 0 }
}

/// Value of a digit string in `radix`, modulo `2^64`.
pub open spec fn based_value(s: Seq<char>, radix: nat) -> nat
    decreases s.len(),
{
    if s.len() == 0 {
        0
    } else {
        (based_value(s.drop_last(), radix) * radix + literal_digit(s.last(), radix)) % 0x1_0000_0000_0000_0000
    }
}

/// Two's complement reading of a 64-bit pattern.
pub open spec fn bits_to_i64(u: nat) -> i64 {
    if u >= 0x8000_0000_0000_0000 { (u - 0x1_0000_0000_0000_0000) as i64 } else { u as i64 }
}

/// Value of a Verilog number literal: `123`, `'d0`, `4'b0101`, `8'shFF`, `16'h_dead` (`_` ignored;
/// `x`/`z`/`?` digits read as 0; a size below 64 keeps only that many low bits; the 64-bit result
/// is read as two's complement). A quote without a valid base letter reads as 0.
pub open spec fn verilog_number_spec(lit: Seq<char>) -> i64 {
    let c = strip_underscores(lit);
    match find_char_spec(c, '\'') {
        None => bits_to_i64(based_value(c, 10)),
        Some(p) => {
            let rest0 = c.skip(p + 1);
            let rest = if rest0.len() > 0 && (rest0[0] == 's' || rest0[0] == 'S') { rest0.drop_first() } else { rest0 };
            if rest.len() == 0 {
                0
            } else {
                match radix_of(rest[0]) {
                    None => 0,
                    Some(r) => {
                        let v = based_value(rest.drop_first(), r);
                        let m = match parse_unsigned_spec(c.take(p), u128::MAX as nat) {
                            Some(n) => if 1 <= n < 64 { v % pow2(n) } else { v },
                            None => v,
                        };
                        bits_to_i64(m)
                    },
                }
            }
        },
    }
}

fn strip_underscore_chars(v: &[char]) -> (r: Vec<char>)
    ensures
        r@ == strip_underscores(v@),
{
    let mut r: Vec<char> = Vec::new();
    let mut i: usize = 0;
    while i < v.len()
        invariant
            i <= v.len(),
            r@ == strip_underscores(v@.take(i as int)),
        decreases v.len() - i,
    {
        assert(v@.take(i + 1).drop_last() == v@.take(i as int));
        if v[i] != '_' {
            r.push(v[i]);
        }
        i = i + 1;
    }
    assert(v@.take(v.len() as int) == v@);
    r
}

fn literal_digit_exec(c: char, radix: u128) -> (d: u128)
    requires
        2 <= radix <= 16,
    ensures
        d == literal_digit(c, radix as nat),
        d < radix,
{
    let v: u128 = if '0' <= c && c <= '9' {
        ((c as u32) - ('0' as u32)) as u128
    } else if 'a' <= c && c <= 'f' {
        ((c as u32) - ('a' as u32) + 10) as u128
    } else if 'A' <= c && c <= 'F' {
        ((c as u32) - ('A' as u32) + 10) as u128
    } else {
        radix
    };
    if v < radix { v } else { 0 }
}

fn based_value_exec(s: &[char], from: usize, radix: u128) -> (r: u128)
    requires
        from <= s.len(),
        2 <= radix <= 16,
    ensures
        r == based_value(s@.skip(from as int), radix as nat),
        r < 0x1_0000_0000_0000_0000,
{
    let ghost t = s@.skip(from as int);
    let mut acc: u128 = 0;
    let mut i: usize = from;
    while i < s.len()
        invariant
            from <= i <= s.len(),
            2 <= radix <= 16,
            t == s@.skip(from as int),
            acc == based_value(t.take(i - from), radix as nat),
            acc < 0x1_0000_0000_0000_0000,
        decreases s.len() - i,
    {
        assert(t.take(i + 1 - from).drop_last() == t.take(i - from));
        assert(t.take(i + 1 - from).last() == s@[i as int]);
        let d = literal_digit_exec(s[i], radix);
        assert(acc * radix + d < 0x1_0000_0000_0000_0000 * 17) by (nonlinear_arith)
            requires acc < 0x1_0000_0000_0000_0000, radix <= 16, d < radix;
        acc = (acc * radix + d) % 0x1_0000_0000_0000_0000;
        i = i + 1;
    }
    assert(t.take(s.len() - from) == t);
    acc
}

fn bits_to_i64_exec(u: u128) -> (r: i64)
    requires
        u < 0x1_0000_0000_0000_0000,
    ensures
        r == bits_to_i64(u as nat),
{
    if u >= 0x8000_0000_0000_0000 {
        ((u as i128) - 0x1_0000_0000_0000_0000i128) as i64
    } else {
        u as i64
    }
}

/// Value of a Verilog number literal (see [`verilog_number_spec`]).
pub fn parse_verilog_number(lit: &str) -> (r: i64)
    ensures
        r == verilog_number_spec(lit@),
{
    let all = chars_of(lit);
    let c = strip_underscore_chars(&all);
    match find_char(&c, '\'') {
        None => {
            assert(c@.skip(0) == c@);
            bits_to_i64_exec(based_value_exec(&c, 0, 10))
        },
        Some(p) => {
            let ghost rest0 = c@.skip(p + 1);
            let signed_marker = p + 1 < c.len() && (c[p + 1] == 's' || c[p + 1] == 'S');
            let b = if signed_marker { p + 2 } else { p + 1 };
            let ghost rest = if rest0.len() > 0 && (rest0[0] == 's' || rest0[0] == 'S') { rest0.drop_first() } else { rest0 };
            assert(rest == c@.skip(b as int));
            if b >= c.len() {
                return 0;
            }
            let bc = c[b];
            let radix: u128 = if bc == 'b' || bc == 'B' { 2 } else if bc == 'o' || bc == 'O' { 8 }
                else if bc == 'd' || bc == 'D' { 10 } else if bc == 'h' || bc == 'H' { 16 } else { 0 };
            if radix == 0 {
                return 0;
            }
            assert(rest.drop_first() == c@.skip(b + 1));
            let v = based_value_exec(&c, b + 1, radix);
            let size_chars = slice_chars(&c, 0, p);
            assert(size_chars@ == c@.take(p as int));
            let m: u128 = match parse_u128(&size_chars) {
                Some(n) => if 1 <= n && n < 64 {
                    let nn: u64 = n as u64;
                    proof {
                        vstd::bits::lemma_u64_pow2_no_overflow(nn as nat);
                        vstd::bits::lemma_u64_shl_is_mul(1, nn);
                    }
                    let pw: u64 = 1u64 << nn;
                    v % (pw as u128)
                } else {
                    v
                },
                None => v,
            };
            bits_to_i64_exec(m)
        },
    }
}

/// `$clog2(v)`: the least `k` with `2^k >= v` (0 for `v <= 1`).
pub open spec fn clog2_spec(v: int) -> nat
    decreases (if v > 1 { v } else { 0 }),
{
    if v <= 1 { 0 } else { 1 + clog2_spec((v + 1) / 2) }
}

proof fn lemma_clog2_bound(x: int, n: nat)
    requires
        x <= pow2(n),
    ensures
        clog2_spec(x) <= n,
    decreases n,
{
    if x > 1 {
        if n == 0 {
            assert(pow2(0) == 1) by { vstd::arithmetic::power2::lemma2_to64(); }
        } else {
            vstd::arithmetic::power2::lemma_pow2_unfold(n);
            lemma_clog2_bound((x + 1) / 2, (n - 1) as nat);
        }
    }
}

/// `$clog2(v)`: ceiling of `log2(v)`, 0 for `v <= 1`.
pub fn verilog_clog2(v: i64) -> (r: i64)
    ensures
        r == clog2_spec(v as int),
        0 <= r <= 63,
{
    let mut x: i64 = v;
    let mut k: i64 = 0;
    proof {
        vstd::arithmetic::power2::lemma2_to64_rest();
        lemma_clog2_bound(v as int, 63);
    }
    while x > 1
        invariant
            0 <= k,
            x <= v,
            clog2_spec(v as int) <= 63,
            k + clog2_spec(x as int) == clog2_spec(v as int),
        decreases x,
    {
        x = (x - 1) / 2 + 1;
        k = k + 1;
    }
    k
}


/// Shift amount `min(r as u32, 63)` used by constant folding.
pub open spec fn shift_amount(r: i64) -> u32 {
    if (r as u32) < 63 { r as u32 } else { 63 }
}

fn shift_amount_exec(r: i64) -> (s: u32)
    ensures
        s == shift_amount(r),
{
    let t = r as u32;
    if t < 63 { t } else { 63 }
}

/// `l / r` truncating toward zero, wrapping on `i64::MIN / -1`, and `0` for `r == 0`.
pub open spec fn div_or_zero(l: i64, r: i64) -> i64 {
    if r == 0 {
        0
    } else {
        match l.checked_div(r) {
            Some(q) => q,
            None => l,
        }
    }
}

/// `l % r` truncating, `0` for `i64::MIN % -1` and for `r == 0`.
pub open spec fn rem_or_zero(l: i64, r: i64) -> i64 {
    if r == 0 {
        0
    } else {
        match l.checked_rem(r) {
            Some(q) => q,
            None => 0,
        }
    }
}

/// Executable [`div_or_zero`].
pub fn div_or_zero_exec(l: i64, r: i64) -> (q: i64)
    ensures
        q == div_or_zero(l, r),
{
    if r == 0 {
        0
    } else {
        match l.checked_div(r) {
            Some(q) => q,
            None => l,
        }
    }
}

/// Executable [`rem_or_zero`].
pub fn rem_or_zero_exec(l: i64, r: i64) -> (q: i64)
    ensures
        q == rem_or_zero(l, r),
{
    if r == 0 {
        0
    } else {
        match l.checked_rem(r) {
            Some(q) => q,
            None => 0,
        }
    }
}

/// `1` if `b`, else `0`.
pub open spec fn bool_i64(b: bool) -> i64 {
    if b { 1 } else { 0 }
}

/// `>>>` on a 64-bit operand, as the folder computes it (operand read at its full 64 bits).
pub open spec fn fold_ashr(l: i64, sh: u32) -> i64 {
    floor_shr_spec(sign_extend_spec(l as int, 64), if sh > 63 { 63 } else { sh as nat }) as i64
}

/// Binary operator of a constant parameter expression (wrapping arithmetic, arithmetic `>>`).
pub open spec fn param_binop_spec(op: BinaryOp, l: i64, r: i64) -> i64 {
    match op {
        BinaryOp::Add => l.wrapping_add(r),
        BinaryOp::Sub => l.wrapping_sub(r),
        BinaryOp::Mul => l.wrapping_mul(r),
        BinaryOp::Div => div_or_zero(l, r),
        BinaryOp::Mod => rem_or_zero(l, r),
        BinaryOp::And => l & r,
        BinaryOp::Or => l | r,
        BinaryOp::Xor => l ^ r,
        BinaryOp::Shl => l.wrapping_shl(shift_amount(r)),
        BinaryOp::Shr => l.wrapping_shr(shift_amount(r)),
        BinaryOp::Ashr => fold_ashr(l, shift_amount(r)),
        BinaryOp::LogAnd => bool_i64(l != 0 && r != 0),
        BinaryOp::LogOr => bool_i64(l != 0 || r != 0),
        BinaryOp::Eq => bool_i64(l == r),
        BinaryOp::Ne => bool_i64(l != r),
        BinaryOp::Lt => bool_i64(l < r),
        BinaryOp::Le => bool_i64(l <= r),
        BinaryOp::Gt => bool_i64(l > r),
        BinaryOp::Ge => bool_i64(l >= r),
    }
}

fn param_binop(op: BinaryOp, l: i64, r: i64) -> (v: i64)
    ensures
        v == param_binop_spec(op, l, r),
{
    match op {
        BinaryOp::Add => l.wrapping_add(r),
        BinaryOp::Sub => l.wrapping_sub(r),
        BinaryOp::Mul => l.wrapping_mul(r),
        BinaryOp::Div => div_or_zero_exec(l, r),
        BinaryOp::Mod => rem_or_zero_exec(l, r),
        BinaryOp::And => l & r,
        BinaryOp::Or => l | r,
        BinaryOp::Xor => l ^ r,
        BinaryOp::Shl => l.wrapping_shl(shift_amount_exec(r)),
        BinaryOp::Shr => l.wrapping_shr(shift_amount_exec(r)),
        BinaryOp::Ashr => arith_shr_i64(l, shift_amount_exec(r), 64),
        BinaryOp::LogAnd => if l != 0 && r != 0 { 1 } else { 0 },
        BinaryOp::LogOr => if l != 0 || r != 0 { 1 } else { 0 },
        BinaryOp::Eq => if l == r { 1 } else { 0 },
        BinaryOp::Ne => if l != r { 1 } else { 0 },
        BinaryOp::Lt => if l < r { 1 } else { 0 },
        BinaryOp::Le => if l <= r { 1 } else { 0 },
        BinaryOp::Gt => if l > r { 1 } else { 0 },
        BinaryOp::Ge => if l >= r { 1 } else { 0 },
    }
}

/// Unary operator of a constant parameter expression.
pub open spec fn param_unop_spec(op: UnaryOp, v: i64) -> i64 {
    match op {
        UnaryOp::Not => !v,
        UnaryOp::LogNot => bool_i64(v == 0),
        UnaryOp::Neg => 0i64.wrapping_sub(v),
        UnaryOp::Pos => v,
    }
}

/// Value of a constant parameter expression under `env`; `None` when it names an unbound
/// identifier or uses a concatenation or a select.
pub open spec fn const_eval_spec(e: Expr, env: Seq<(String, i64)>) -> Option<i64>
    decreases e,
{
    match e {
        Expr::Number(lit) => Some(verilog_number_spec(lit@)),
        Expr::Ident(name) => env_lookup(env, name@),
        Expr::Binary { op, left, right } => match (const_eval_spec(*left, env), const_eval_spec(*right, env)) {
            (Some(l), Some(r)) => Some(param_binop_spec(op, l, r)),
            _ => None,
        },
        Expr::Unary { op, operand } => match const_eval_spec(*operand, env) {
            Some(v) => Some(param_unop_spec(op, v)),
            None => None,
        },
        Expr::Ternary { cond, then_expr, else_expr } => match const_eval_spec(*cond, env) {
            Some(c) => if c != 0 { const_eval_spec(*then_expr, env) } else { const_eval_spec(*else_expr, env) },
            None => None,
        },
        Expr::Clog2(a) => match const_eval_spec(*a, env) {
            Some(v) => Some(clog2_spec(v as int) as i64),
            None => None,
        },
        Expr::Signed(a) => match const_eval_spec(*a, env) {
            Some(v) => Some(sign_extend_spec(v as int, 32) as i64),
            None => None,
        },
        Expr::Concat(_) => None,
        Expr::Index { .. } => None,
    }
}

/// Evaluates a constant parameter expression under `known`.
pub fn const_eval_param_expr(e: &Expr, known: &ParamEnv) -> (r: Option<i64>)
    ensures
        r == const_eval_spec(*e, known@),
    decreases e,
{
    match e {
        Expr::Number(lit) => Some(parse_verilog_number(lit.as_str())),
        Expr::Ident(name) => env_get(known, name),
        Expr::Binary { op, left, right } => {
            let l = match const_eval_param_expr(left, known) {
                Some(v) => v,
                None => { return None; },
            };
            let r = match const_eval_param_expr(right, known) {
                Some(v) => v,
                None => { return None; },
            };
            Some(param_binop(*op, l, r))
        },
        Expr::Unary { op, operand } => {
            let v = match const_eval_param_expr(operand, known) {
                Some(v) => v,
                None => { return None; },
            };
            Some(match op {
                UnaryOp::Not => !v,
                UnaryOp::LogNot => if v == 0 { 1 } else { 0 },
                UnaryOp::Neg => 0i64.wrapping_sub(v),
                UnaryOp::Pos => v,
            })
        },
        Expr::Ternary { cond, then_expr, else_expr } => {
            let c = match const_eval_param_expr(cond, known) {
                Some(v) => v,
                None => { return None; },
            };
            if c != 0 {
                const_eval_param_expr(then_expr, known)
            } else {
                const_eval_param_expr(else_expr, known)
            }
        },
        Expr::Clog2(a) => match const_eval_param_expr(a, known) {
            Some(v) => Some(verilog_clog2(v)),
            None => None,
        },
        Expr::Signed(a) => match const_eval_param_expr(a, known) {
            Some(v) => Some(sign_extend_i64(v, 32)),
            None => None,
        },
        Expr::Concat(_) => None,
        Expr::Index { .. } => None,
    }
}

/// `env` extended by evaluating `pairs` in order, each under the bindings made so far;
/// assignments that do not evaluate are skipped.
pub open spec fn resolve_from(env: Seq<(String, i64)>, pairs: Seq<(String, Expr)>) -> Seq<(String, i64)>
    decreases pairs.len(),
{
    if pairs.len() == 0 {
        env
    } else {
        let e = resolve_from(env, pairs.drop_last());
        match const_eval_spec(pairs.last().1, e) {
            Some(v) => e.push((pairs.last().0, v)),
            None => e,
        }
    }
}

/// Environment built by evaluating `pairs` in order (see [`resolve_from`]).
pub open spec fn resolve_spec(pairs: Seq<(String, Expr)>) -> Seq<(String, i64)> {
    resolve_from(seq![], pairs)
}

/// Extends `env` by the assignments `pairs`, in order (see [`resolve_from`]).
pub fn resolve_into(env: &mut ParamEnv, pairs: &Vec<(String, Expr)>)
    ensures
        final(env)@ == resolve_from(old(env)@, pairs@),
{
    let ghost start = env@;
    let mut i: usize = 0;
    while i < pairs.len()
        invariant
            i <= pairs.len(),
            env@ == resolve_from(start, pairs@.take(i as int)),
        decreases pairs.len() - i,
    {
        assert(pairs@.take(i + 1).drop_last() == pairs@.take(i as int));
        if let Some(v) = const_eval_param_expr(&pairs[i].1, env) {
            env.push((pairs[i].0.clone(), v));
        }
        i = i + 1;
    }
    assert(pairs@.take(pairs.len() as int) == pairs@);
}

/// Resolves `parameter` / `localparam` assignments in declaration order.
pub fn resolve_local_param_values(pairs: &Vec<(String, Expr)>) -> (r: ParamEnv)
    ensures
        r@ == resolve_spec(pairs@),
{
    let mut env: ParamEnv = Vec::new();
    resolve_into(&mut env, pairs);
    env
}

} // verus!
