//! Event-driven simulation of a lowered design and its IEEE 1364 VCD output: flattening of the
//! hierarchy, `initial` scheduling, `always` blocks (clocked and combinational), continuous
//! assignments, and the value-change dump.
use vstd::prelude::*;
use vstd::arithmetic::power2::pow2;
use crate::arith::{arith_shr_i64, clamp_width, floor_shr_spec, sign_extend_i64, sign_extend_spec};
use crate::expr_const::{div_or_zero, div_or_zero_exec, rem_or_zero, rem_or_zero_exec, env_get, env_lookup, bool_i64};
use crate::ir::{const_index_spec, ir_try_eval_const_index_expr, IrBinOp, IrCaseArm, IrExpr, IrStmt, IrUnaryOp};
use crate::strutil::{
    all_digits, chars_of, concat_chars, digits_value, is_digit, join_name_index, join_names, joined_name, signed_decimal_spec, parse_u128, parse_unsigned_spec, slice_chars,
    string_from_chars, strip_plus, trim_chars, trim_spec, char_is_ws, is_ws,
};

verus! {

// ---------------------------------------------------------------------------------------------
// Operators and bit helpers
// ---------------------------------------------------------------------------------------------

/// Simulation value of a binary operator other than `>>>` (wrapping arithmetic; 0 on division
/// or remainder by zero; shift amounts taken modulo 64; `>>` logical).
pub open spec fn binop_spec(op: IrBinOp, l: i64, r: i64) -> i64 {
    match op {
        IrBinOp::Add => l.wrapping_add(r),
        IrBinOp::Sub => l.wrapping_sub(r),
        IrBinOp::Mul => l.wrapping_mul(r),
        IrBinOp::Div => div_or_zero(l, r),
        IrBinOp::Mod => rem_or_zero(l, r),
        IrBinOp::And => l & r,
        IrBinOp::Or => l | r,
        IrBinOp::Xor => l ^ r,
        IrBinOp::Shl => l.wrapping_shl(r as u32),
        IrBinOp::Shr => ((l as u64) >> ((r as u32) % 64)) as i64,
        IrBinOp::LogAnd => bool_i64(l != 0 && r != 0),
        IrBinOp::LogOr => bool_i64(l != 0 || r != 0),
        IrBinOp::Eq => bool_i64(l == r),
        IrBinOp::Ne => bool_i64(l != r),
        IrBinOp::Lt => bool_i64(l < r),
        IrBinOp::Le => bool_i64(l <= r),
        IrBinOp::Gt => bool_i64(l > r),
        IrBinOp::Ge => bool_i64(l >= r),
        IrBinOp::Ashr => 0,
    }
}

/// Evaluates a binary operator other than `>>>`, which needs the left operand's width.
pub fn eval_binop(op: IrBinOp, l: i64, r: i64) -> (v: i64)
    requires
        op != IrBinOp::Ashr,
    ensures
        v == binop_spec(op, l, r),
{
    match op {
        IrBinOp::Add => l.wrapping_add(r),
        IrBinOp::Sub => l.wrapping_sub(r),
        IrBinOp::Mul => l.wrapping_mul(r),
        IrBinOp::Div => div_or_zero_exec(l, r),
        IrBinOp::Mod => rem_or_zero_exec(l, r),
        IrBinOp::And => l & r,
        IrBinOp::Or => l | r,
        IrBinOp::Xor => l ^ r,
        IrBinOp::Shl => l.wrapping_shl(r as u32),
        IrBinOp::Shr => ((l as u64) >> ((r as u32) % 64)) as i64,
        IrBinOp::LogAnd => if l != 0 && r != 0 { 1 } else { 0 },
        IrBinOp::LogOr => if l != 0 || r != 0 { 1 } else { 0 },
        IrBinOp::Eq => if l == r { 1 } else { 0 },
        IrBinOp::Ne => if l != r { 1 } else { 0 },
        IrBinOp::Lt => if l < r { 1 } else { 0 },
        IrBinOp::Le => if l <= r { 1 } else { 0 },
        IrBinOp::Gt => if l > r { 1 } else { 0 },
        IrBinOp::Ge => if l >= r { 1 } else { 0 },
        IrBinOp::Ashr => 0,
    }
}

/// Comparisons and logical operators give a truth value: 1 exactly when their relation holds
/// between the operands, 0 otherwise. `<` and `>=` (and `==` and `!=`) are complements, `>` is
/// `<` with the operands swapped, and `<=` is `<` or `==`; in particular `l < l` is 0 and
/// `l <= l` is 1.
pub proof fn law_binop_comparisons(l: i64, r: i64)
    ensures
        binop_spec(IrBinOp::Lt, l, r) == 1 <==> l < r,
        binop_spec(IrBinOp::Le, l, r) == 1 <==> l <= r,
        binop_spec(IrBinOp::Gt, l, r) == 1 <==> l > r,
        binop_spec(IrBinOp::Ge, l, r) == 1 <==> l >= r,
        binop_spec(IrBinOp::Eq, l, r) == 1 <==> l == r,
        binop_spec(IrBinOp::Ne, l, r) == 1 <==> l != r,
        binop_spec(IrBinOp::LogAnd, l, r) == 1 <==> l != 0 && r != 0,
        binop_spec(IrBinOp::LogOr, l, r) == 1 <==> l != 0 || r != 0,
        forall|op: IrBinOp|
            (op == IrBinOp::Lt || op == IrBinOp::Le || op == IrBinOp::Gt || op == IrBinOp::Ge || op == IrBinOp::Eq || op
                == IrBinOp::Ne || op == IrBinOp::LogAnd || op == IrBinOp::LogOr) ==> (#[trigger] binop_spec(op, l, r) == 0
                || binop_spec(op, l, r) == 1),
        binop_spec(IrBinOp::Lt, l, r) + binop_spec(IrBinOp::Ge, l, r) == 1,
        binop_spec(IrBinOp::Eq, l, r) + binop_spec(IrBinOp::Ne, l, r) == 1,
        binop_spec(IrBinOp::Gt, l, r) == binop_spec(IrBinOp::Lt, r, l),
        binop_spec(IrBinOp::Le, l, r) == 1 <==> (binop_spec(IrBinOp::Lt, l, r) == 1 || binop_spec(IrBinOp::Eq, l, r) == 1),
        binop_spec(IrBinOp::Lt, l, l) == 0,
        binop_spec(IrBinOp::Le, l, l) == 1,
{
}

/// Addition, subtraction and multiplication give the exact result whenever it fits in 64
/// bits (they wrap only outside that range); division and remainder by zero give 0, and for
/// a non-negative dividend and a positive divisor they are the quotient and remainder of
/// integer division, so `(l / r) * r + l % r == l`.
pub proof fn law_binop_arithmetic(l: i64, r: i64)
    ensures
        i64::MIN <= l + r <= i64::MAX ==> binop_spec(IrBinOp::Add, l, r) == l + r,
        i64::MIN <= l - r <= i64::MAX ==> binop_spec(IrBinOp::Sub, l, r) == l - r,
        i64::MIN <= l * r <= i64::MAX ==> binop_spec(IrBinOp::Mul, l, r) == l * r,
        r == 0 ==> binop_spec(IrBinOp::Div, l, r) == 0 && binop_spec(IrBinOp::Mod, l, r) == 0,
        l >= 0 && r > 0 ==> binop_spec(IrBinOp::Div, l, r) == l / r && binop_spec(IrBinOp::Mod, l, r) == l % r,
        l >= 0 && r > 0 ==> binop_spec(IrBinOp::Div, l, r) * r + binop_spec(IrBinOp::Mod, l, r) == l,
        l >= 0 && r > 0 ==> 0 <= binop_spec(IrBinOp::Mod, l, r) < r,
{
    if i64::MIN <= l * r <= i64::MAX {
        let x = l * r;
        let m: int = 0x1_0000_0000_0000_0000;
        if x >= 0 {
            vstd::arithmetic::div_mod::lemma_small_mod(x as nat, m as nat);
        } else {
            vstd::arithmetic::div_mod::lemma_fundamental_div_mod(x, m);
            vstd::arithmetic::div_mod::lemma_mod_multiples_vanish(1, x, m);
            vstd::arithmetic::div_mod::lemma_small_mod((x + m) as nat, m as nat);
        }
    }
    if l >= 0 && r > 0 {
        vstd::arithmetic::div_mod::lemma_fundamental_div_mod(l as int, r as int);
        vstd::arithmetic::div_mod::lemma_mod_bound(l as int, r as int);
        vstd::arithmetic::mul::lemma_mul_is_commutative(l as int / r as int, r as int);
    }
}

/// Shifts: by 0 they change nothing; `<<` by 1 doubles whenever the double fits; `>>` is a
/// logical shift, so by 1 it halves a non-negative value and by 63 it leaves only the sign bit.
pub proof fn law_binop_shifts(l: i64)
    ensures
        binop_spec(IrBinOp::Shl, l, 0) == l,
        binop_spec(IrBinOp::Shr, l, 0) == l,
        -0x4000_0000_0000_0000 <= l < 0x4000_0000_0000_0000 ==> binop_spec(IrBinOp::Shl, l, 1) == 2 * l,
        l >= 0 ==> binop_spec(IrBinOp::Shr, l, 1) == l / 2,
        binop_spec(IrBinOp::Shr, l, 63) == (if l < 0 { 1i64 } else { 0i64 }),
{
    assert(l << 0u32 == l) by (bit_vector);
    assert(((l as u64) >> 0u32) as i64 == l) by (bit_vector);
    assert(-0x4000_0000_0000_0000 <= l < 0x4000_0000_0000_0000 ==> l << 1u32 == 2 * l) by (bit_vector);
    assert(l >= 0 ==> ((l as u64) >> 1u32) as i64 == l / 2) by (bit_vector);
    assert(((l as u64) >> 63u32) as i64 == (if l < 0 { 1i64 } else { 0i64 })) by (bit_vector);
}

/// Bitwise operators act bit by bit: `&` with 0 is 0 and with all ones is the operand, `|`
/// with 0 is the operand and with all ones is all ones, `^` of equal operands is 0 and with 0
/// is the operand, and `l ^ r` is `l | r` without the bits of `l & r`.
pub proof fn law_binop_bitwise(l: i64, r: i64)
    ensures
        binop_spec(IrBinOp::And, l, 0) == 0,
        binop_spec(IrBinOp::And, l, -1i64) == l,
        binop_spec(IrBinOp::Or, l, 0) == l,
        binop_spec(IrBinOp::Or, l, -1i64) == -1,
        binop_spec(IrBinOp::Xor, l, l) == 0,
        binop_spec(IrBinOp::Xor, l, 0) == l,
        binop_spec(IrBinOp::Xor, l, r) == binop_spec(IrBinOp::Or, l, r) & !binop_spec(IrBinOp::And, l, r),
        binop_spec(IrBinOp::And, l, r) == binop_spec(IrBinOp::And, r, l),
        binop_spec(IrBinOp::Or, l, r) == binop_spec(IrBinOp::Or, r, l),
{
    assert(l & 0 == 0) by (bit_vector);
    assert(l & -1i64 == l) by (bit_vector);
    assert(l | 0 == l) by (bit_vector);
    assert(l | -1i64 == -1i64) by (bit_vector);
    assert(l ^ l == 0) by (bit_vector);
    assert(l ^ 0 == l) by (bit_vector);
    assert(l ^ r == (l | r) & !(l & r)) by (bit_vector);
    assert(l & r == r & l) by (bit_vector);
    assert(l | r == r | l) by (bit_vector);
}

/// Simulation value of a unary operator.
pub open spec fn unop_spec(op: IrUnaryOp, v: i64) -> i64 {
    match op {
        IrUnaryOp::Not => !v,
        IrUnaryOp::LogNot => bool_i64(v == 0),
        IrUnaryOp::Neg => 0i64.wrapping_sub(v),
    }
}

/// Unary operators: `!v` is 1 exactly when `v` is 0 (else 0), `-v` is the negation whenever
/// it fits (only `i64::MIN` wraps), and `~` flips every bit, so applying it twice gives `v`
/// back and `v + ~v == -1`.
pub proof fn law_unop(v: i64)
    ensures
        unop_spec(IrUnaryOp::LogNot, v) == 1 <==> v == 0,
        unop_spec(IrUnaryOp::LogNot, v) == 0 || unop_spec(IrUnaryOp::LogNot, v) == 1,
        v != i64::MIN ==> unop_spec(IrUnaryOp::Neg, v) == -v,
        unop_spec(IrUnaryOp::Not, unop_spec(IrUnaryOp::Not, v)) == v,
        v + unop_spec(IrUnaryOp::Not, v) == -1,
{
    assert(!(!v) == v) by (bit_vector);
    assert(v + !v == -1) by (bit_vector);
}

/// Evaluates a unary operator (`-` wraps).
pub fn eval_unop(op: IrUnaryOp, v: i64) -> (r: i64)
    ensures
        r == unop_spec(op, v),
{
    match op {
        IrUnaryOp::Not => !v,
        IrUnaryOp::LogNot => if v == 0 { 1 } else { 0 },
        IrUnaryOp::Neg => 0i64.wrapping_sub(v),
    }
}

/// The low `w` bits set (all 64 for `w >= 64`).
pub open spec fn low_mask(w: usize) -> i64 {
    if w >= 64 { -1i64 } else { (pow2(w as nat) - 1) as i64 }
}

/// `val` reduced to its low `w` bits (`w >= 64` keeps it whole).
pub open spec fn mask_spec(val: i64, w: usize) -> i64 {
    if w >= 64 { val } else { val & low_mask(w) }
}

fn low_mask_exec(w: usize) -> (m: i64)
    requires
        w < 64,
    ensures
        m == low_mask(w),
        m >= 0,
{
    proof {
        vstd::arithmetic::power2::lemma2_to64();
        vstd::arithmetic::power2::lemma2_to64_rest();
    }
    if w == 63 {
        i64::MAX
    } else {
        let wu: u64 = w as u64;
        proof {
            vstd::bits::lemma_u64_pow2_no_overflow(wu as nat);
            vstd::bits::lemma_u64_shl_is_mul(1, wu);
        }
        let p: u64 = 1u64 << wu;
        proof {
            vstd::arithmetic::power2::lemma_pow2_strictly_increases(wu as nat, 63);
        }
        (p - 1) as i64
    }
}

/// `val` reduced to its low `w` bits.
pub fn mask_to_width(val: i64, w: usize) -> (r: i64)
    ensures
        r == mask_spec(val, w),
{
    if w >= 64 {
        val
    } else {
        val & low_mask_exec(w)
    }
}

/// Masking twice to the same width is masking once.
pub proof fn law_mask_idempotent(val: i64, w: usize)
    ensures
        mask_spec(mask_spec(val, w), w) == mask_spec(val, w),
{
    if w < 64 {
        let m = low_mask(w);
        assert((val & m) & m == val & m) by (bit_vector);
    }
}

/// A masked value lies in `0..2^w` for `w < 64`.
pub proof fn law_mask_range(val: i64, w: usize)
    requires
        w < 64,
    ensures
        0 <= mask_spec(val, w) <= low_mask(w),
{
    vstd::arithmetic::power2::lemma2_to64();
    vstd::arithmetic::power2::lemma2_to64_rest();
    vstd::arithmetic::power2::lemma_pow2_pos(w as nat);
    if w < 63 {
        vstd::arithmetic::power2::lemma_pow2_strictly_increases(w as nat, 63);
    }
    let m = low_mask(w);
    assert(m >= 0 ==> 0 <= val & m <= m) by (bit_vector);
}

/// Bits `[msb:lsb]` of `val` (bit 0 is the LSB; a negative low index reads from bit 0; the
/// field is at most 63 bits wide and starts at most at bit 63); 0 for an empty range.
pub open spec fn part_select_spec(val: i64, msb: i64, lsb: i64) -> i64 {
    let lo0 = if msb <= lsb { msb } else { lsb };
    let lo = if lo0 < 0 { 0 } else { lo0 };
    let hi = if msb <= lsb { lsb } else { msb };
    let width = hi - lo + 1;
    if width <= 0 {
        0
    } else {
        let w = if width > 63 { 63 } else { width };
        let sh = if lo > 63 { 63 } else { lo };
        (val >> (sh as u64)) & low_mask(w as usize)
    }
}

/// Verilog packed select `val[msb:lsb]` (see [`part_select_spec`]).
pub fn part_select_bits(val: i64, msb: i64, lsb: i64) -> (r: i64)
    ensures
        r == part_select_spec(val, msb, lsb),
{
    let lo0 = if msb <= lsb { msb } else { lsb };
    let lo = if lo0 < 0 { 0 } else { lo0 };
    let hi = if msb <= lsb { lsb } else { msb };
    let width: i128 = hi as i128 - lo as i128 + 1;
    if width <= 0 {
        return 0;
    }
    let w: usize = if width > 63 { 63 } else { width as usize };
    let sh: u64 = if lo > 63 { 63 } else { lo as u64 };
    (val >> sh) & low_mask_exec(w)
}

// ---------------------------------------------------------------------------------------------
// VCD identifiers
// ---------------------------------------------------------------------------------------------

/// The printable character `'!' + d` for `d < 94`.
pub open spec fn ident_char(d: nat) -> char {
    (33 + d) as char
}

/// VCD identifier of signal number `n`: bijective base-94 digits over `'!'..='~'`, least
/// significant first.
pub open spec fn vcd_ident_spec(n: nat) -> Seq<char>
    decreases n,
{
    if n / 94 == 0 {
        seq![ident_char(n % 94)]
    } else {
        seq![ident_char(n % 94)] + vcd_ident_spec((n / 94 - 1) as nat)
    }
}

/// VCD identifier of signal number `index` (see [`vcd_ident_spec`]).
pub fn vcd_ident(index: usize) -> (r: String)
    ensures
        r@ == vcd_ident_spec(index as nat),
{
    let mut n: usize = index;
    let mut id: Vec<char> = Vec::new();
    loop
        invariant_except_break
            vcd_ident_spec(index as nat) == id@ + vcd_ident_spec(n as nat),
        ensures
            id@ == vcd_ident_spec(index as nat),
        decreases n,
    {
        let d: u8 = (n % 94) as u8;
        let c: char = (33u8 + d) as char;
        assert(c == ident_char((n % 94) as nat));
        let ghost prev = id@;
        let ghost m = n as nat;
        id.push(c);
        n = n / 94;
        if n == 0 {
            assert(vcd_ident_spec(m) == seq![c]);
            assert(id@ =~= prev + seq![c]);
            break;
        }
        n = n - 1;
        assert(vcd_ident_spec(m) == seq![c] + vcd_ident_spec(n as nat));
        assert(id@ + vcd_ident_spec(n as nat) =~= prev + (seq![c] + vcd_ident_spec(n as nat)));
    }
    string_from_chars(&id)
}

/// Distinct signal numbers get distinct VCD identifiers.
pub proof fn law_vcd_ident_injective(a: nat, b: nat)
    requires
        vcd_ident_spec(a) == vcd_ident_spec(b),
    ensures
        a == b,
    decreases a,
{
    let sa = vcd_ident_spec(a);
    let sb = vcd_ident_spec(b);
    assert(sa[0] == sb[0]);
    assert(sa[0] as u32 == 33 + a % 94);
    assert(sb[0] as u32 == 33 + b % 94);
    assert(a % 94 == b % 94);
    if a / 94 == 0 && b / 94 == 0 {
    } else if a / 94 != 0 && b / 94 != 0 {
        assert(sa.drop_first() =~= vcd_ident_spec((a / 94 - 1) as nat));
        assert(sb.drop_first() =~= vcd_ident_spec((b / 94 - 1) as nat));
        law_vcd_ident_injective((a / 94 - 1) as nat, (b / 94 - 1) as nat);
    } else {
        lemma_vcd_ident_nonempty((a / 94) as nat);
        lemma_vcd_ident_nonempty((b / 94) as nat);
        if a / 94 != 0 {
            lemma_vcd_ident_nonempty((a / 94 - 1) as nat);
        } else {
            lemma_vcd_ident_nonempty((b / 94 - 1) as nat);
        }
        assert(sa.len() != sb.len());
    }
}

proof fn lemma_vcd_ident_nonempty(n: nat)
    ensures
        vcd_ident_spec(n).len() >= 1,
{
}


// ---------------------------------------------------------------------------------------------
// Signal environments
// ---------------------------------------------------------------------------------------------

/// Signal values by name (a later binding of a name hides earlier ones).
pub type SigEnv = Vec<(String, i64)>;

/// Value of `name` in `env`; 0 for a signal never set.
pub open spec fn sig_value(env: Seq<(String, i64)>, name: Seq<char>) -> i64 {
    match env_lookup(env, name) {
        Some(v) => v,
        None => 0,
    }
}

/// Value of `name` in `env`; 0 for a signal never set.
pub fn sig_get(env: &SigEnv, name: &String) -> (v: i64)
    ensures
        v == sig_value(env@, name@),
{
    match env_get(env, name) {
        Some(v) => v,
        None => 0,
    }
}

proof fn lemma_lookup_last(s: Seq<(String, i64)>, n: Seq<char>, j: int)
    requires
        0 <= j < s.len(),
        s[j].0@ == n,
        forall|k: int| j < k < s.len() ==> (#[trigger] s[k]).0@ != n,
    ensures
        env_lookup(s, n) == Some(s[j].1),
    decreases s.len(),
{
    if j < s.len() - 1 {
        assert(s.drop_last()[j] == s[j]);
        lemma_lookup_last(s.drop_last(), n, j);
    }
}

proof fn lemma_lookup_update_other(s: Seq<(String, i64)>, n: Seq<char>, j: int, e: (String, i64))
    requires
        0 <= j < s.len(),
        s[j].0@ != n,
        e.0@ != n,
    ensures
        env_lookup(s.update(j, e), n) == env_lookup(s, n),
    decreases s.len(),
{
    if s.len() > 0 {
        if j < s.len() - 1 {
            assert(s.update(j, e).drop_last() =~= s.drop_last().update(j, e));
            lemma_lookup_update_other(s.drop_last(), n, j, e);
        } else {
            assert(s.update(j, e).drop_last() =~= s.drop_last());
        }
    }
}

/// Sets `name` to `v` in `env`.
pub fn sig_set(env: &mut SigEnv, name: &String, v: i64)
    ensures
        forall|n: Seq<char>| #[trigger] env_lookup(final(env)@, n) == if n == name@ {
            Some(v)
        } else {
            env_lookup(old(env)@, n)
        },
{
    let mut i = env.len();
    while i > 0
        invariant
            i <= env.len(),
            *env == *old(env),
            forall|k: int| i <= k < env@.len() ==> (#[trigger] env@[k]).0@ != name@,
        decreases i,
    {
        if env[i - 1].0 == *name {
            let ghost s = env@;
            let j = i - 1;
            env.set(j, (name.clone(), v));
            proof {
                lemma_lookup_last(env@, name@, j as int);
                assert forall|n: Seq<char>| #[trigger] env_lookup(env@, n) == if n == name@ {
                    Some(v)
                } else {
                    env_lookup(s, n)
                } by {
                    if n != name@ {
                        lemma_lookup_update_other(s, n, j as int, env@[j as int]);
                    }
                }
            }
            return;
        }
        i = i - 1;
    }
    let ghost s = env@;
    env.push((name.clone(), v));
    proof {
        assert forall|n: Seq<char>| #[trigger] env_lookup(env@, n) == if n == name@ {
            Some(v)
        } else {
            env_lookup(s, n)
        } by {
            assert(env@.drop_last() == s);
        }
    }
}

/// Whether `a` and `b` give every signal the same value (and the same set of set signals).
pub open spec fn same_env(a: Seq<(String, i64)>, b: Seq<(String, i64)>) -> bool {
    forall|n: Seq<char>| #[trigger] env_lookup(a, n) == env_lookup(b, n)
}

proof fn lemma_lookup_some_index(s: Seq<(String, i64)>, n: Seq<char>)
    ensures
        env_lookup(s, n) is Some ==> exists|k: int| 0 <= k < s.len() && (#[trigger] s[k]).0@ == n,
        env_lookup(s, n) is None ==> forall|k: int| 0 <= k < s.len() ==> (#[trigger] s[k]).0@ != n,
    decreases s.len(),
{
    if s.len() > 0 {
        lemma_lookup_some_index(s.drop_last(), n);
        if env_lookup(s, n) is Some && s.last().0@ != n {
            let k = choose|k: int| 0 <= k < s.drop_last().len() && (#[trigger] s.drop_last()[k]).0@ == n;
            assert(s[k] == s.drop_last()[k]);
        }
        if env_lookup(s, n) is None {
            assert forall|k: int| 0 <= k < s.len() implies (#[trigger] s[k]).0@ != n by {
                if k < s.len() - 1 {
                    assert(s[k] == s.drop_last()[k]);
                }
            }
        }
    }
}

/// Whether `a` and `b` give every signal the same value (see [`same_env`]).
pub fn env_equal(a: &SigEnv, b: &SigEnv) -> (r: bool)
    ensures
        r == same_env(a@, b@),
{
    let mut i: usize = 0;
    while i < a.len()
        invariant
            i <= a.len(),
            forall|k: int| 0 <= k < i ==> env_lookup(a@, (#[trigger] a@[k]).0@) == env_lookup(b@, a@[k].0@),
        decreases a.len() - i,
    {
        if env_get(a, &a[i].0) != env_get(b, &a[i].0) {
            return false;
        }
        i = i + 1;
    }
    let mut j: usize = 0;
    while j < b.len()
        invariant
            j <= b.len(),
            forall|k: int| 0 <= k < a.len() ==> env_lookup(a@, (#[trigger] a@[k]).0@) == env_lookup(b@, a@[k].0@),
            forall|k: int| 0 <= k < j ==> env_lookup(a@, (#[trigger] b@[k]).0@) == env_lookup(b@, b@[k].0@),
        decreases b.len() - j,
    {
        if env_get(a, &b[j].0) != env_get(b, &b[j].0) {
            return false;
        }
        j = j + 1;
    }
    proof {
        assert forall|n: Seq<char>| #[trigger] env_lookup(a@, n) == env_lookup(b@, n) by {
            lemma_lookup_some_index(a@, n);
            lemma_lookup_some_index(b@, n);
            if env_lookup(a@, n) is Some {
                let k = choose|k: int| 0 <= k < a@.len() && (#[trigger] a@[k]).0@ == n;
                assert(env_lookup(a@, a@[k].0@) == env_lookup(b@, a@[k].0@));
            } else if env_lookup(b@, n) is Some {
                let k = choose|k: int| 0 <= k < b@.len() && (#[trigger] b@[k]).0@ == n;
                assert(env_lookup(a@, b@[k].0@) == env_lookup(b@, b@[k].0@));
            }
        }
    }
    true
}

/// A copy of `env`.
pub fn copy_env(env: &SigEnv) -> (r: SigEnv)
    ensures
        r@ == env@,
{
    let mut out: SigEnv = Vec::new();
    let mut i: usize = 0;
    while i < env.len()
        invariant
            i <= env.len(),
            out@ == env@.take(i as int),
        decreases env.len() - i,
    {
        out.push((env[i].0.clone(), env[i].1));
        assert(out@ =~= env@.take(i + 1));
        i = i + 1;
    }
    assert(env@.take(env.len() as int) == env@);
    out
}

/// Entry bound to `name` in an association list (the last binding wins).
pub open spec fn assoc<T>(s: Seq<(String, T)>, name: Seq<char>) -> Option<T>
    decreases s.len(),
{
    if s.len() == 0 {
        None
    } else if s.last().0@ == name {
        Some(s.last().1)
    } else {
        assoc(s.drop_last(), name)
    }
}

/// Entry bound to `name` in an association list (the last binding wins).
pub fn assoc_get<T: Copy>(s: &Vec<(String, T)>, name: &String) -> (r: Option<T>)
    ensures
        r == assoc(s@, name@),
{
    let mut i = s.len();
    assert(s@.take(i as int) == s@);
    while i > 0
        invariant
            i <= s.len(),
            assoc(s@, name@) == assoc(s@.take(i as int), name@),
        decreases i,
    {
        assert(s@.take(i as int).drop_last() == s@.take(i - 1));
        if s[i - 1].0 == *name {
            return Some(s[i - 1].1);
        }
        i = i - 1;
    }
    None
}

/// Whether `name` is one of `names`.
pub fn contains_name(names: &Vec<String>, name: &String) -> (b: bool)
    ensures
        b == exists|i: int| 0 <= i < names@.len() && (#[trigger] names@[i])@ == name@,
{
    let mut i: usize = 0;
    while i < names.len()
        invariant
            i <= names.len(),
            forall|k: int| 0 <= k < i ==> (#[trigger] names@[k])@ != name@,
        decreases names.len() - i,
    {
        if names[i] == *name {
            return true;
        }
        i = i + 1;
    }
    false
}

// ---------------------------------------------------------------------------------------------
// Widths of flattened names
// ---------------------------------------------------------------------------------------------

/// What `str::parse::<i64>` accepts: an optional sign, then decimal digits whose value fits.
pub open spec fn i64_text(s: Seq<char>) -> bool {
    if s.len() > 0 && s[0] == '-' {
        let b = s.drop_first();
        b.len() > 0 && all_digits(b) && digits_value(b) <= 0x8000_0000_0000_0000
    } else {
        parse_unsigned_spec(s, i64::MAX as nat) is Some
    }
}

fn is_i64_text(s: &Vec<char>) -> (b: bool)
    ensures
        b == i64_text(s@),
{
    if s.len() > 0 && s[0] == '-' {
        let rest = slice_chars(s, 1, s.len());
        assert(rest@ == s@.drop_first());
        if rest.len() == 0 || rest[0] == '+' {
            proof {
                if rest.len() > 0 {
                    assert(!is_digit(rest@[0]));
                }
            }
            return false;
        }
        assert(strip_plus(rest@) == rest@);
        match parse_u128(&rest) {
            Some(v) => v <= 0x8000_0000_0000_0000,
            None => false,
        }
    } else {
        match parse_u128(s) {
            Some(v) => v <= i64::MAX as u128,
            None => false,
        }
    }
}

/// `name` is `stem__k` for an integer `k`.
pub open spec fn is_element_of(name: Seq<char>, stem: Seq<char>) -> bool {
    let p = stem + seq!['_', '_'];
    name.len() >= p.len() && name.take(p.len() as int) == p && i64_text(name.skip(p.len() as int))
}

fn element_of(name: &Vec<char>, stem: &String) -> (b: bool)
    ensures
        b == is_element_of(name@, stem@),
{
    let sep = ['_', '_'];
    let p = concat_chars(&chars_of(stem.as_str()), &sep);
    assert(sep@ =~= seq!['_', '_']);
    assert(p@ =~= stem@ + seq!['_', '_']);
    if name.len() < p.len() {
        return false;
    }
    let head = slice_chars(name, 0, p.len());
    assert(head@ =~= name@.take(p.len() as int));
    let mut i: usize = 0;
    while i < p.len()
        invariant
            i <= p.len() == head.len(),
            head@ == name@.take(p.len() as int),
            p@ == stem@ + seq!['_', '_'],
            forall|k: int| 0 <= k < i ==> head@[k] == p@[k],
        decreases p.len() - i,
    {
        if head[i] != p[i] {
            assert(head@[i as int] != p@[i as int]);
            assert(head@ != p@);
            return false;
        }
        i = i + 1;
    }
    assert(head@ =~= p@);
    let rest = slice_chars(name, p.len(), name.len());
    is_i64_text(&rest)
}

/// Position of the first array of which `lhs` is an element.
pub open spec fn first_elem(lhs: Seq<char>, mb: Seq<(String, (i64, i64))>) -> Option<int>
    decreases mb.len(),
{
    if mb.len() == 0 {
        None
    } else if is_element_of(lhs, mb[0].0@) {
        Some(0)
    } else {
        match first_elem(lhs, mb.drop_first()) {
            Some(j) => Some(j + 1),
            None => None,
        }
    }
}

proof fn lemma_first_elem(lhs: Seq<char>, mb: Seq<(String, (i64, i64))>, i: int)
    requires
        0 <= i <= mb.len(),
        forall|k: int| 0 <= k < i ==> !is_element_of(lhs, (#[trigger] mb[k]).0@),
    ensures
        i < mb.len() && is_element_of(lhs, mb[i].0@) ==> first_elem(lhs, mb) == Some(i),
        i == mb.len() ==> first_elem(lhs, mb) is None,
    decreases i,
{
    if i > 0 {
        let t = mb.drop_first();
        assert forall|k: int| 0 <= k < i - 1 implies !is_element_of(lhs, (#[trigger] t[k]).0@) by {
            assert(t[k] == mb[k + 1]);
        }
        assert(!is_element_of(lhs, mb[0].0@));
        if i < mb.len() {
            assert(t[i - 1] == mb[i]);
        }
        lemma_first_elem(lhs, t, i - 1);
    } else if mb.len() > 0 {
    }
}

/// Width of a flattened name: its declared width; else, for an element `stem__k` of an
/// unpacked array, the array's element width (1 when unknown); else 1. (A name is the element of
/// at most one array: `stem__k` with an integer `k` cannot also be `other__j`.)
pub open spec fn lhs_width_spec(
    lhs: Seq<char>,
    widths: Seq<(String, usize)>,
    mem_bounds: Seq<(String, (i64, i64))>,
    mem_elem_width: Seq<(String, usize)>,
) -> usize {
    match assoc(widths, lhs) {
        Some(w) => w,
        None => match first_elem(lhs, mem_bounds) {
            Some(i) => match assoc(mem_elem_width, mem_bounds[i].0@) {
                Some(w) => w,
                None => 1,
            },
            None => 1,
        },
    }
}

/// Width of a flattened name (see [`lhs_width_spec`]).
pub fn width_for_assign_lhs(
    lhs: &String,
    widths: &Vec<(String, usize)>,
    mem_bounds: &Vec<(String, (i64, i64))>,
    mem_elem_width: &Vec<(String, usize)>,
) -> (w: usize)
    ensures
        w == lhs_width_spec(lhs@, widths@, mem_bounds@, mem_elem_width@),
{
    match assoc_get(widths, lhs) {
        Some(w) => {
            return w;
        },
        None => {},
    }
    let name = chars_of(lhs.as_str());
    let mut i: usize = 0;
    while i < mem_bounds.len()
        invariant
            i <= mem_bounds.len(),
            name@ == lhs@,
            assoc(widths@, lhs@) is None,
            forall|k: int| 0 <= k < i ==> !is_element_of(lhs@, (#[trigger] mem_bounds@[k]).0@),
        decreases mem_bounds.len() - i,
    {
        if element_of(&name, &mem_bounds[i].0) {
            proof {
                lemma_first_elem(lhs@, mem_bounds@, i as int);
            }
            return match assoc_get(mem_elem_width, &mem_bounds[i].0) {
                Some(w) => w,
                None => 1,
            };
        }
        i = i + 1;
    }
    proof {
        lemma_first_elem(lhs@, mem_bounds@, i as int);
    }
    1
}

// ---------------------------------------------------------------------------------------------
// Expression evaluation
// ---------------------------------------------------------------------------------------------

/// Name of element `k` of the unpacked array `stem`.
pub open spec fn element_name(stem: Seq<char>, k: i64) -> Seq<char> {
    joined_name(stem, signed_decimal_spec(k as int))
}

/// `idx` clamped into `lo..=hi` (bounds taken as given when `lo > hi`: below `lo` reads `lo`).
pub open spec fn clamp_spec(idx: i64, lo: i64, hi: i64) -> i64 {
    if idx < lo { lo } else if idx > hi { hi } else { idx }
}

fn clamp_exec(idx: i64, lo: i64, hi: i64) -> (r: i64)
    ensures
        r == clamp_spec(idx, lo, hi),
{
    if idx < lo { lo } else if idx > hi { hi } else { idx }
}

/// Bounds of an unpacked array (`(0, 0)` when unknown).
pub open spec fn bounds_of(mem_bounds: Seq<(String, (i64, i64))>, stem: Seq<char>) -> (i64, i64) {
    match assoc(mem_bounds, stem) {
        Some(b) => b,
        None => (0, 0),
    }
}

/// Element width of an unpacked array (1 when unknown).
pub open spec fn elem_width_of(mem_elem_width: Seq<(String, usize)>, stem: Seq<char>) -> usize {
    match assoc(mem_elem_width, stem) {
        Some(w) => w,
        None => 1,
    }
}

/// Width the simulator gives an expression: a signal's width (clamped to 1..=64), 1 for a
/// constant or a comparison, the sum for a concatenation, `|msb - lsb| + 1` (at most 64) for a
/// constant part-select (32 otherwise), an array's element width for a memory read, the wider
/// operand otherwise.
pub open spec fn width_spec(
    e: IrExpr,
    widths: Seq<(String, usize)>,
    mem_bounds: Seq<(String, (i64, i64))>,
    mem_elem_width: Seq<(String, usize)>,
) -> u32
    decreases e, 0nat,
{
    match e {
        IrExpr::Ident(name) => {
            let w = lhs_width_spec(name@, widths, mem_bounds, mem_elem_width);
            (if w > 64 { 64 } else if w < 1 { 1 } else { w }) as u32
        },
        IrExpr::Const(_) => 1,
        IrExpr::Concat(es) => widths_sum(es@, widths, mem_bounds, mem_elem_width),
        IrExpr::Unary { operand, .. } => width_spec(*operand, widths, mem_bounds, mem_elem_width),
        IrExpr::PartSelect { msb, lsb, .. } => match (*msb, *lsb) {
            (IrExpr::Const(a), IrExpr::Const(b)) => {
                let d = if a >= b { a - b } else { b - a };
                (if d + 1 > 64 { 64 } else { d + 1 }) as u32
            },
            _ => 32,
        },
        IrExpr::MemRead { stem, .. } => elem_width_of(mem_elem_width, stem@) as u32,
        IrExpr::Binary { op, left, right } => if op == IrBinOp::Eq || op == IrBinOp::Ne || op == IrBinOp::Lt || op
            == IrBinOp::Le || op == IrBinOp::Gt || op == IrBinOp::Ge || op == IrBinOp::LogAnd || op == IrBinOp::LogOr {
            1
        } else {
            let a = width_spec(*left, widths, mem_bounds, mem_elem_width);
            let b = width_spec(*right, widths, mem_bounds, mem_elem_width);
            if a >= b { a } else { b }
        },
        IrExpr::Ternary { then_expr, else_expr, .. } => {
            let a = width_spec(*then_expr, widths, mem_bounds, mem_elem_width);
            let b = width_spec(*else_expr, widths, mem_bounds, mem_elem_width);
            if a >= b { a } else { b }
        },
        IrExpr::Signed(inner) => width_spec(*inner, widths, mem_bounds, mem_elem_width),
    }
}

/// Sum of the widths of `es` (wrapping in `u32`).
pub open spec fn widths_sum(
    es: Seq<IrExpr>,
    widths: Seq<(String, usize)>,
    mem_bounds: Seq<(String, (i64, i64))>,
    mem_elem_width: Seq<(String, usize)>,
) -> u32
    decreases es, 0nat,
{
    if es.len() == 0 {
        0
    } else {
        widths_sum(es.subrange(0, es.len() - 1), widths, mem_bounds, mem_elem_width).wrapping_add(
            width_spec(es[es.len() - 1], widths, mem_bounds, mem_elem_width),
        )
    }
}

/// Value of `e` in the signal environment `env`: operators as [`binop_spec`] / [`unop_spec`],
/// `>>>` and `$signed` at the operand's width (clamped to 1..=63), concatenations packed from the
/// last operand up (each masked to its width), selects by [`part_select_spec`], memory reads of
/// element `stem__k` (index clamped to the bounds) masked to the element width.
pub open spec fn eval_spec(
    e: IrExpr,
    env: Seq<(String, i64)>,
    widths: Seq<(String, usize)>,
    mem_bounds: Seq<(String, (i64, i64))>,
    mem_elem_width: Seq<(String, usize)>,
) -> i64
    decreases e, 0nat,
{
    match e {
        IrExpr::Const(v) => v,
        IrExpr::Ident(name) => sig_value(env, name@),
        IrExpr::Binary { op, left, right } => {
            let l = eval_spec(*left, env, widths, mem_bounds, mem_elem_width);
            let r = eval_spec(*right, env, widths, mem_bounds, mem_elem_width);
            if op == IrBinOp::Ashr {
                let w = width_spec(*left, widths, mem_bounds, mem_elem_width);
                arith_shr_spec(l, r as u32, if w < 1 { 1 } else if w > 63 { 63 } else { w })
            } else {
                binop_spec(op, l, r)
            }
        },
        IrExpr::Unary { op, operand } => unop_spec(op, eval_spec(*operand, env, widths, mem_bounds, mem_elem_width)),
        IrExpr::Ternary { cond, then_expr, else_expr } => if eval_spec(*cond, env, widths, mem_bounds, mem_elem_width)
            != 0 {
            eval_spec(*then_expr, env, widths, mem_bounds, mem_elem_width)
        } else {
            eval_spec(*else_expr, env, widths, mem_bounds, mem_elem_width)
        },
        IrExpr::Concat(es) => concat_spec(es@, env, widths, mem_bounds, mem_elem_width).0,
        IrExpr::PartSelect { value, msb, lsb } => part_select_spec(
            eval_spec(*value, env, widths, mem_bounds, mem_elem_width),
            eval_spec(*msb, env, widths, mem_bounds, mem_elem_width),
            eval_spec(*lsb, env, widths, mem_bounds, mem_elem_width),
        ),
        IrExpr::MemRead { stem, index } => {
            let (lo, hi) = bounds_of(mem_bounds, stem@);
            let k = clamp_spec(eval_spec(*index, env, widths, mem_bounds, mem_elem_width), lo, hi);
            mask_spec(sig_value(env, element_name(stem@, k)), elem_width_of(mem_elem_width, stem@))
        },
        IrExpr::Signed(inner) => {
            let w = width_spec(*inner, widths, mem_bounds, mem_elem_width);
            sign_extend_spec(
                eval_spec(*inner, env, widths, mem_bounds, mem_elem_width) as int,
                clamp_width(if w < 1 { 1 } else if w > 63 { 63 } else { w }),
            ) as i64
        },
    }
}

/// `>>>` as [`arith_shr_i64`] computes it.
pub open spec fn arith_shr_spec(v: i64, sh: u32, w: u32) -> i64 {
    floor_shr_spec(sign_extend_spec(v as int, clamp_width(w)), if sh > 63 { 63 } else { sh as nat }) as i64
}

/// A concatenation packed from its last operand up: `(value, next bit position)`.
pub open spec fn concat_spec(
    es: Seq<IrExpr>,
    env: Seq<(String, i64)>,
    widths: Seq<(String, usize)>,
    mem_bounds: Seq<(String, (i64, i64))>,
    mem_elem_width: Seq<(String, usize)>,
) -> (i64, u32)
    decreases es, 0nat,
{
    if es.len() == 0 {
        (0, 0)
    } else {
        let (r, sh) = concat_spec(es.subrange(1, es.len() as int), env, widths, mem_bounds, mem_elem_width);
        let v = eval_spec(es[0], env, widths, mem_bounds, mem_elem_width);
        let w = width_spec(es[0], widths, mem_bounds, mem_elem_width);
        (r | (v & low_mask(w as usize)).wrapping_shl(sh), sh.wrapping_add(w))
    }
}

/// Widths and memories of a simulated design, by flattened name.
pub struct SimTables {
    pub widths: Vec<(String, usize)>,
    pub mem_bounds: Vec<(String, (i64, i64))>,
    pub mem_elem_width: Vec<(String, usize)>,
}

impl SimTables {
    /// Width of a flattened name (see [`lhs_width_spec`]).
    pub fn width_for_signal(&self, name: &String) -> (w: usize)
        ensures
            w == lhs_width_spec(name@, self.widths@, self.mem_bounds@, self.mem_elem_width@),
    {
        width_for_assign_lhs(name, &self.widths, &self.mem_bounds, &self.mem_elem_width)
    }

    /// Width the simulator gives an expression (see [`width_spec`]).
    pub fn infer_expr_width(&self, e: &IrExpr) -> (w: u32)
        ensures
            w == width_spec(*e, self.widths@, self.mem_bounds@, self.mem_elem_width@),
        decreases e, 0nat,
    {
        match e {
            IrExpr::Ident(name) => {
                let w = self.width_for_signal(name);
                (if w > 64 { 64 } else if w < 1 { 1 } else { w }) as u32
            },
            IrExpr::Const(_) => 1,
            IrExpr::Concat(es) => self.widths_sum_exec(es),
            IrExpr::Unary { operand, .. } => self.infer_expr_width(operand),
            IrExpr::PartSelect { msb, lsb, .. } => match (&**msb, &**lsb) {
                (IrExpr::Const(a), IrExpr::Const(b)) => {
                    let d: i128 = if *a >= *b { *a as i128 - *b as i128 } else { *b as i128 - *a as i128 };
                    (if d + 1 > 64 { 64 } else { d + 1 }) as u32
                },
                _ => 32,
            },
            IrExpr::MemRead { stem, .. } => (match assoc_get(&self.mem_elem_width, stem) {
                Some(w) => w,
                None => 1,
            }) as u32,
            IrExpr::Binary { op, left, right } => {
                if *op == IrBinOp::Eq || *op == IrBinOp::Ne || *op == IrBinOp::Lt || *op == IrBinOp::Le || *op
                    == IrBinOp::Gt || *op == IrBinOp::Ge || *op == IrBinOp::LogAnd || *op == IrBinOp::LogOr {
                    1
                } else {
                    let a = self.infer_expr_width(left);
                    let b = self.infer_expr_width(right);
                    if a >= b { a } else { b }
                }
            },
            IrExpr::Ternary { then_expr, else_expr, .. } => {
                let a = self.infer_expr_width(then_expr);
                let b = self.infer_expr_width(else_expr);
                if a >= b { a } else { b }
            },
            IrExpr::Signed(inner) => self.infer_expr_width(inner),
        }
    }

    fn widths_sum_exec(&self, es: &Vec<IrExpr>) -> (w: u32)
        ensures
            w == widths_sum(es@, self.widths@, self.mem_bounds@, self.mem_elem_width@),
        decreases es@, 0nat,
    {
        let mut acc: u32 = 0;
        let mut i: usize = 0;
        while i < es.len()
            invariant
                i <= es.len(),
                acc == widths_sum(es@.take(i as int), self.widths@, self.mem_bounds@, self.mem_elem_width@),
            decreases es.len() - i,
        {
            assert(es@.take(i + 1).subrange(0, i as int) == es@.take(i as int));
            assert(decreases_to!(es@ => es@[i as int]));
            acc = acc.wrapping_add(self.infer_expr_width(&es[i]));
            i = i + 1;
        }
        assert(es@.take(es.len() as int) == es@);
        acc
    }

    /// Value of `e` under `env` (see [`eval_spec`]).
    pub fn eval_expr_with_env(&self, e: &IrExpr, env: &SigEnv) -> (v: i64)
        ensures
            v == eval_spec(*e, env@, self.widths@, self.mem_bounds@, self.mem_elem_width@),
        decreases e, 0nat,
    {
        match e {
            IrExpr::Const(v) => *v,
            IrExpr::Ident(name) => sig_get(env, name),
            IrExpr::Binary { op, left, right } => {
                let l = self.eval_expr_with_env(left, env);
                let r = self.eval_expr_with_env(right, env);
                if *op == IrBinOp::Ashr {
                    let w = self.infer_expr_width(left);
                    arith_shr_i64(l, r as u32, if w < 1 { 1 } else if w > 63 { 63 } else { w })
                } else {
                    eval_binop(*op, l, r)
                }
            },
            IrExpr::Unary { op, operand } => eval_unop(*op, self.eval_expr_with_env(operand, env)),
            IrExpr::Ternary { cond, then_expr, else_expr } => {
                if self.eval_expr_with_env(cond, env) != 0 {
                    self.eval_expr_with_env(then_expr, env)
                } else {
                    self.eval_expr_with_env(else_expr, env)
                }
            },
            IrExpr::Concat(es) => self.eval_concat(es, env).0,
            IrExpr::PartSelect { value, msb, lsb } => {
                let v = self.eval_expr_with_env(value, env);
                let hi = self.eval_expr_with_env(msb, env);
                let lo = self.eval_expr_with_env(lsb, env);
                part_select_bits(v, hi, lo)
            },
            IrExpr::MemRead { stem, index } => {
                let idx = self.eval_expr_with_env(index, env);
                let (lo, hi) = match assoc_get(&self.mem_bounds, stem) {
                    Some(b) => b,
                    None => (0, 0),
                };
                let ew = match assoc_get(&self.mem_elem_width, stem) {
                    Some(w) => w,
                    None => 1,
                };
                let k = clamp_exec(idx, lo, hi);
                let name = join_name_index(stem, k);
                mask_to_width(sig_get(env, &name), ew)
            },
            IrExpr::Signed(inner) => {
                let w = self.infer_expr_width(inner);
                let v = self.eval_expr_with_env(inner, env);
                sign_extend_i64(v, if w < 1 { 1 } else if w > 63 { 63 } else { w })
            },
        }
    }

    fn eval_concat(&self, es: &Vec<IrExpr>, env: &SigEnv) -> (r: (i64, u32))
        ensures
            r == concat_spec(es@, env@, self.widths@, self.mem_bounds@, self.mem_elem_width@),
        decreases es@, 0nat,
    {
        let mut result: i64 = 0;
        let mut shift: u32 = 0;
        let mut i = es.len();
        assert(es@.subrange(es.len() as int, es.len() as int) == Seq::<IrExpr>::empty());
        while i > 0
            invariant
                i <= es.len(),
                (result, shift) == concat_spec(es@.subrange(i as int, es.len() as int), env@, self.widths@, self.mem_bounds@, self.mem_elem_width@),
            decreases i,
        {
            let e = &es[i - 1];
            assert(decreases_to!(es@ => es@[i - 1]));
            let v = self.eval_expr_with_env(e, env);
            let w = self.infer_expr_width(e);
            let m: i64 = if w >= 64 { -1 } else { low_mask_exec(w as usize) };
            result = result | (v & m).wrapping_shl(shift);
            shift = shift.wrapping_add(w);
            proof {
                let t = es@.subrange(i - 1, es.len() as int);
                assert(t[0] == es@[i - 1]);
                assert(t.subrange(1, t.len() as int) =~= es@.subrange(i as int, es.len() as int));
            }
            i = i - 1;
        }
        assert(es@.subrange(0, es.len() as int) == es@);
        (result, shift)
    }
}
/// Value of `e` as `initial` blocks are pre-evaluated: like [`eval_spec`] but concatenations
/// take one bit per operand, memory reads are not masked, `$signed` reads 32 bits and `>>>`
/// shifts the full 64-bit value.
pub open spec fn static_spec(e: IrExpr, env: Seq<(String, i64)>, mem_bounds: Seq<(String, (i64, i64))>) -> i64
    decreases e, 0nat,
{
    match e {
        IrExpr::Const(v) => v,
        IrExpr::Ident(name) => sig_value(env, name@),
        IrExpr::Binary { op, left, right } => if op == IrBinOp::Ashr {
            arith_shr_spec(static_spec(*left, env, mem_bounds), static_spec(*right, env, mem_bounds) as u32, 64)
        } else {
            binop_spec(op, static_spec(*left, env, mem_bounds), static_spec(*right, env, mem_bounds))
        },
        IrExpr::Unary { op, operand } => unop_spec(op, static_spec(*operand, env, mem_bounds)),
        IrExpr::Ternary { cond, then_expr, else_expr } => if static_spec(*cond, env, mem_bounds) != 0 {
            static_spec(*then_expr, env, mem_bounds)
        } else {
            static_spec(*else_expr, env, mem_bounds)
        },
        IrExpr::Concat(es) => static_concat(es@, env, mem_bounds),
        IrExpr::PartSelect { value, msb, lsb } => part_select_spec(
            static_spec(*value, env, mem_bounds),
            static_spec(*msb, env, mem_bounds),
            static_spec(*lsb, env, mem_bounds),
        ),
        IrExpr::MemRead { stem, index } => {
            let (lo, hi) = bounds_of(mem_bounds, stem@);
            sig_value(env, element_name(stem@, clamp_spec(static_spec(*index, env, mem_bounds), lo, hi)))
        },
        IrExpr::Signed(inner) => sign_extend_spec(static_spec(*inner, env, mem_bounds) as int, 32) as i64,
    }
}

/// One bit per operand, the last operand at bit 0.
pub open spec fn static_concat(es: Seq<IrExpr>, env: Seq<(String, i64)>, mem_bounds: Seq<(String, (i64, i64))>) -> i64
    decreases es, 0nat,
{
    if es.len() == 0 {
        0
    } else {
        static_concat(es.subrange(1, es.len() as int), env, mem_bounds) | (static_spec(es[0], env, mem_bounds)
            & 1).wrapping_shl((es.len() - 1) as u32)
    }
}

/// Pre-evaluates `e` for `initial` scheduling (see [`static_spec`]).
pub fn static_eval(e: &IrExpr, env: &SigEnv, mem_bounds: &Vec<(String, (i64, i64))>) -> (v: i64)
    ensures
        v == static_spec(*e, env@, mem_bounds@),
    decreases e, 0nat,
{
    match e {
        IrExpr::Const(v) => *v,
        IrExpr::Ident(name) => sig_get(env, name),
        IrExpr::Binary { op, left, right } => {
            let l = static_eval(left, env, mem_bounds);
            let r = static_eval(right, env, mem_bounds);
            if *op == IrBinOp::Ashr {
                arith_shr_i64(l, r as u32, 64)
            } else {
                eval_binop(*op, l, r)
            }
        },
        IrExpr::Unary { op, operand } => eval_unop(*op, static_eval(operand, env, mem_bounds)),
        IrExpr::Ternary { cond, then_expr, else_expr } => {
            if static_eval(cond, env, mem_bounds) != 0 {
                static_eval(then_expr, env, mem_bounds)
            } else {
                static_eval(else_expr, env, mem_bounds)
            }
        },
        IrExpr::Concat(es) => static_concat_exec(es, env, mem_bounds),
        IrExpr::PartSelect { value, msb, lsb } => {
            let v = static_eval(value, env, mem_bounds);
            let hi = static_eval(msb, env, mem_bounds);
            let lo = static_eval(lsb, env, mem_bounds);
            part_select_bits(v, hi, lo)
        },
        IrExpr::MemRead { stem, index } => {
            let idx = static_eval(index, env, mem_bounds);
            let (lo, hi) = match assoc_get(mem_bounds, stem) {
                Some(b) => b,
                None => (0, 0),
            };
            let name = join_name_index(stem, clamp_exec(idx, lo, hi));
            sig_get(env, &name)
        },
        IrExpr::Signed(inner) => sign_extend_i64(static_eval(inner, env, mem_bounds), 32),
    }
}

fn static_concat_exec(es: &Vec<IrExpr>, env: &SigEnv, mem_bounds: &Vec<(String, (i64, i64))>) -> (v: i64)
    ensures
        v == static_concat(es@, env@, mem_bounds@),
    decreases es@, 0nat,
{
    let mut result: i64 = 0;
    let mut i = es.len();
    assert(es@.subrange(es.len() as int, es.len() as int) == Seq::<IrExpr>::empty());
    while i > 0
        invariant
            i <= es.len(),
            result == static_concat(es@.subrange(i as int, es.len() as int), env@, mem_bounds@),
        decreases i,
    {
        assert(decreases_to!(es@ => es@[i - 1]));
        let v = static_eval(&es[i - 1], env, mem_bounds);
        let sh: u32 = (es.len() - i) as u32;
        result = result | (v & 1).wrapping_shl(sh);
        proof {
            let t = es@.subrange(i - 1, es.len() as int);
            assert(t[0] == es@[i - 1]);
            assert(t.subrange(1, t.len() as int) =~= es@.subrange(i as int, es.len() as int));
        }
        i = i - 1;
    }
    assert(es@.subrange(0, es.len() as int) == es@);
    result
}

// ---------------------------------------------------------------------------------------------
// Hierarchical prefixes
// ---------------------------------------------------------------------------------------------

/// `name` under the hierarchical `prefix`: `prefix__name` (`name` itself at the top).
pub open spec fn pfx_spec(prefix: Seq<char>, name: Seq<char>) -> Seq<char> {
    if prefix.len() == 0 { name } else { joined_name(prefix, name) }
}

/// `name` under the hierarchical `prefix` (see [`pfx_spec`]).
pub fn pfx_name(prefix: &String, name: &String) -> (r: String)
    ensures
        r@ == pfx_spec(prefix@, name@),
{
    if prefix.as_str().unicode_len() == 0 {
        name.clone()
    } else {
        join_names(prefix, name)
    }
}

/// `r` is `e` with every signal and array name put under `p`.
pub open spec fn prefix_rel(e: IrExpr, r: IrExpr, p: Seq<char>) -> bool
    decreases e, 0nat,
{
    match e {
        IrExpr::Const(v) => r == IrExpr::Const(v),
        IrExpr::Ident(n) => r is Ident && r->Ident_0@ == pfx_spec(p, n@),
        IrExpr::Binary { op, left, right } => match r {
            IrExpr::Binary { op: o, left: l, right: rr } => o == op && prefix_rel(*left, *l, p) && prefix_rel(*right, *rr, p),
            _ => false,
        },
        IrExpr::Unary { op, operand } => match r {
            IrExpr::Unary { op: o, operand: x } => o == op && prefix_rel(*operand, *x, p),
            _ => false,
        },
        IrExpr::Ternary { cond, then_expr, else_expr } => match r {
            IrExpr::Ternary { cond: c, then_expr: t, else_expr: f } => prefix_rel(*cond, *c, p) && prefix_rel(
                *then_expr,
                *t,
                p,
            ) && prefix_rel(*else_expr, *f, p),
            _ => false,
        },
        IrExpr::Concat(es) => match r {
            IrExpr::Concat(rs) => prefix_seq_rel(es@, rs@, p),
            _ => false,
        },
        IrExpr::PartSelect { value, msb, lsb } => match r {
            IrExpr::PartSelect { value: v, msb: m, lsb: l } => prefix_rel(*value, *v, p) && prefix_rel(*msb, *m, p)
                && prefix_rel(*lsb, *l, p),
            _ => false,
        },
        IrExpr::MemRead { stem, index } => match r {
            IrExpr::MemRead { stem: st, index: i } => st@ == pfx_spec(p, stem@) && prefix_rel(*index, *i, p),
            _ => false,
        },
        IrExpr::Signed(inner) => match r {
            IrExpr::Signed(x) => prefix_rel(*inner, *x, p),
            _ => false,
        },
    }
}

/// [`prefix_rel`] element by element.
pub open spec fn prefix_seq_rel(es: Seq<IrExpr>, rs: Seq<IrExpr>, p: Seq<char>) -> bool
    decreases es, 0nat,
{
    if es.len() == 0 {
        rs.len() == 0
    } else {
        rs.len() == es.len() && prefix_seq_rel(es.subrange(0, es.len() - 1), rs.subrange(0, rs.len() - 1), p)
            && prefix_rel(es[es.len() - 1], rs[rs.len() - 1], p)
    }
}

/// `e` with every signal and array name put under `prefix` (see [`prefix_rel`]).
pub fn prefix_ir_expr(e: &IrExpr, prefix: &String) -> (r: IrExpr)
    ensures
        prefix_rel(*e, r, prefix@),
    decreases e, 0nat,
{
    match e {
        IrExpr::Const(v) => IrExpr::Const(*v),
        IrExpr::Ident(n) => IrExpr::Ident(pfx_name(prefix, n)),
        IrExpr::Binary { op, left, right } => IrExpr::Binary {
            op: *op,
            left: Box::new(prefix_ir_expr(left, prefix)),
            right: Box::new(prefix_ir_expr(right, prefix)),
        },
        IrExpr::Unary { op, operand } => IrExpr::Unary { op: *op, operand: Box::new(prefix_ir_expr(operand, prefix)) },
        IrExpr::Ternary { cond, then_expr, else_expr } => IrExpr::Ternary {
            cond: Box::new(prefix_ir_expr(cond, prefix)),
            then_expr: Box::new(prefix_ir_expr(then_expr, prefix)),
            else_expr: Box::new(prefix_ir_expr(else_expr, prefix)),
        },
        IrExpr::Concat(es) => IrExpr::Concat(prefix_exprs(es, prefix)),
        IrExpr::PartSelect { value, msb, lsb } => IrExpr::PartSelect {
            value: Box::new(prefix_ir_expr(value, prefix)),
            msb: Box::new(prefix_ir_expr(msb, prefix)),
            lsb: Box::new(prefix_ir_expr(lsb, prefix)),
        },
        IrExpr::MemRead { stem, index } => IrExpr::MemRead {
            stem: pfx_name(prefix, stem),
            index: Box::new(prefix_ir_expr(index, prefix)),
        },
        IrExpr::Signed(inner) => IrExpr::Signed(Box::new(prefix_ir_expr(inner, prefix))),
    }
}

/// [`prefix_ir_expr`] on each expression of `es`.
pub fn prefix_exprs(es: &Vec<IrExpr>, prefix: &String) -> (r: Vec<IrExpr>)
    ensures
        prefix_seq_rel(es@, r@, prefix@),
    decreases es@, 0nat,
{
    let mut out: Vec<IrExpr> = Vec::new();
    let mut i: usize = 0;
    while i < es.len()
        invariant
            i <= es.len(),
            out@.len() == i,
            prefix_seq_rel(es@.take(i as int), out@, prefix@),
        decreases es.len() - i,
    {
        assert(decreases_to!(es@ => es@[i as int]));
        let x = prefix_ir_expr(&es[i], prefix);
        let ghost prev = out@;
        out.push(x);
        assert(es@.take(i + 1).subrange(0, i as int) == es@.take(i as int));
        assert(out@.subrange(0, i as int) == prev);
        i = i + 1;
    }
    assert(es@.take(es.len() as int) == es@);
    out
}

/// `r` is statement `s` with every name put under `p`.
pub open spec fn prefix_stmt_rel(s: IrStmt, r: IrStmt, p: Seq<char>) -> bool
    decreases s, 0nat,
{
    match s {
        IrStmt::BlockingAssign { lhs, rhs } => match r {
            IrStmt::BlockingAssign { lhs: l, rhs: x } => l@ == pfx_spec(p, lhs@) && prefix_rel(rhs, x, p),
            _ => false,
        },
        IrStmt::NonBlockingAssign { lhs, rhs } => match r {
            IrStmt::NonBlockingAssign { lhs: l, rhs: x } => l@ == pfx_spec(p, lhs@) && prefix_rel(rhs, x, p),
            _ => false,
        },
        IrStmt::MemAssign { stem, index, rhs, nonblocking } => match r {
            IrStmt::MemAssign { stem: st, index: i, rhs: x, nonblocking: nb } => st@ == pfx_spec(p, stem@) && nb
                == nonblocking && prefix_rel(index, i, p) && prefix_rel(rhs, x, p),
            _ => false,
        },
        IrStmt::IfElse { cond, then_body, else_body } => match r {
            IrStmt::IfElse { cond: c, then_body: t, else_body: e } => prefix_rel(cond, c, p) && prefix_stmts_rel(
                then_body@,
                t@,
                p,
            ) && prefix_stmts_rel(else_body@, e@, p),
            _ => false,
        },
        IrStmt::Case { expr, arms, default } => match r {
            IrStmt::Case { expr: x, arms: a, default: d } => prefix_rel(expr, x, p) && prefix_arms_rel(arms@, a@, p)
                && prefix_stmts_rel(default@, d@, p),
            _ => false,
        },
        IrStmt::For { init_var, init_val, cond, step_var, step_expr, body } => match r {
            IrStmt::For { init_var: iv, init_val: a, cond: c, step_var: sv, step_expr: se, body: b } => {
                &&& iv@ == pfx_spec(p, init_var@)
                &&& sv@ == pfx_spec(p, step_var@)
                &&& prefix_rel(init_val, a, p)
                &&& prefix_rel(cond, c, p)
                &&& prefix_rel(step_expr, se, p)
                &&& prefix_stmts_rel(body@, b@, p)
            },
            _ => false,
        },
        IrStmt::Delay(d) => r == IrStmt::Delay(d),
        IrStmt::SystemTask { name, args } => match r {
            IrStmt::SystemTask { name: n, args: a } => n == name && prefix_seq_rel(args@, a@, p),
            _ => false,
        },
    }
}

/// [`prefix_stmt_rel`] statement by statement.
pub open spec fn prefix_stmts_rel(ss: Seq<IrStmt>, rs: Seq<IrStmt>, p: Seq<char>) -> bool
    decreases ss, 0nat,
{
    if ss.len() == 0 {
        rs.len() == 0
    } else {
        rs.len() == ss.len() && prefix_stmts_rel(ss.subrange(0, ss.len() - 1), rs.subrange(0, rs.len() - 1), p)
            && prefix_stmt_rel(ss[ss.len() - 1], rs[rs.len() - 1], p)
    }
}

/// `case` arms with their values and bodies put under `p`.
pub open spec fn prefix_arms_rel(arms: Seq<IrCaseArm>, rs: Seq<IrCaseArm>, p: Seq<char>) -> bool
    decreases arms, 0nat,
{
    if arms.len() == 0 {
        rs.len() == 0
    } else {
        &&& rs.len() == arms.len()
        &&& prefix_arms_rel(arms.subrange(0, arms.len() - 1), rs.subrange(0, rs.len() - 1), p)
        &&& prefix_rel(arms[arms.len() - 1].value, rs[rs.len() - 1].value, p)
        &&& prefix_stmts_rel(arms[arms.len() - 1].body@, rs[rs.len() - 1].body@, p)
    }
}

/// Statement `s` with every name put under `prefix` (see [`prefix_stmt_rel`]).
pub fn prefix_stmt(s: &IrStmt, prefix: &String) -> (r: IrStmt)
    ensures
        prefix_stmt_rel(*s, r, prefix@),
    decreases s, 0nat,
{
    match s {
        IrStmt::BlockingAssign { lhs, rhs } => IrStmt::BlockingAssign {
            lhs: pfx_name(prefix, lhs),
            rhs: prefix_ir_expr(rhs, prefix),
        },
        IrStmt::NonBlockingAssign { lhs, rhs } => IrStmt::NonBlockingAssign {
            lhs: pfx_name(prefix, lhs),
            rhs: prefix_ir_expr(rhs, prefix),
        },
        IrStmt::MemAssign { stem, index, rhs, nonblocking } => IrStmt::MemAssign {
            stem: pfx_name(prefix, stem),
            index: prefix_ir_expr(index, prefix),
            rhs: prefix_ir_expr(rhs, prefix),
            nonblocking: *nonblocking,
        },
        IrStmt::IfElse { cond, then_body, else_body } => IrStmt::IfElse {
            cond: prefix_ir_expr(cond, prefix),
            then_body: prefix_stmts(then_body, prefix),
            else_body: prefix_stmts(else_body, prefix),
        },
        IrStmt::Case { expr, arms, default } => IrStmt::Case {
            expr: prefix_ir_expr(expr, prefix),
            arms: prefix_arms(arms, prefix),
            default: prefix_stmts(default, prefix),
        },
        IrStmt::For { init_var, init_val, cond, step_var, step_expr, body } => IrStmt::For {
            init_var: pfx_name(prefix, init_var),
            init_val: prefix_ir_expr(init_val, prefix),
            cond: prefix_ir_expr(cond, prefix),
            step_var: pfx_name(prefix, step_var),
            step_expr: prefix_ir_expr(step_expr, prefix),
            body: prefix_stmts(body, prefix),
        },
        IrStmt::Delay(d) => IrStmt::Delay(*d),
        IrStmt::SystemTask { name, args } => IrStmt::SystemTask { name: name.clone(), args: prefix_exprs(args, prefix) },
    }
}

/// [`prefix_stmt`] on each statement of `ss`.
pub fn prefix_stmts(ss: &Vec<IrStmt>, prefix: &String) -> (r: Vec<IrStmt>)
    ensures
        prefix_stmts_rel(ss@, r@, prefix@),
    decreases ss@, 0nat,
{
    let mut out: Vec<IrStmt> = Vec::new();
    let mut i: usize = 0;
    while i < ss.len()
        invariant
            i <= ss.len(),
            out@.len() == i,
            prefix_stmts_rel(ss@.take(i as int), out@, prefix@),
        decreases ss.len() - i,
    {
        assert(decreases_to!(ss@ => ss@[i as int]));
        let x = prefix_stmt(&ss[i], prefix);
        let ghost prev = out@;
        out.push(x);
        assert(ss@.take(i + 1).subrange(0, i as int) == ss@.take(i as int));
        assert(out@.subrange(0, i as int) == prev);
        i = i + 1;
    }
    assert(ss@.take(ss.len() as int) == ss@);
    out
}

fn prefix_arm(a: &IrCaseArm, prefix: &String) -> (r: IrCaseArm)
    ensures
        prefix_rel(a.value, r.value, prefix@),
        prefix_stmts_rel(a.body@, r.body@, prefix@),
    decreases a, 0nat,
{
    IrCaseArm { value: prefix_ir_expr(&a.value, prefix), body: prefix_stmts(&a.body, prefix) }
}

/// `case` arms put under `prefix` (see [`prefix_arms_rel`]).
pub fn prefix_arms(arms: &Vec<IrCaseArm>, prefix: &String) -> (r: Vec<IrCaseArm>)
    ensures
        prefix_arms_rel(arms@, r@, prefix@),
    decreases arms@, 0nat,
{
    let mut out: Vec<IrCaseArm> = Vec::new();
    let mut i: usize = 0;
    while i < arms.len()
        invariant
            i <= arms.len(),
            out@.len() == i,
            prefix_arms_rel(arms@.take(i as int), out@, prefix@),
        decreases arms.len() - i,
    {
        assert(decreases_to!(arms@ => arms@[i as int]));
        let x = prefix_arm(&arms[i], prefix);
        let ghost prev = out@;
        out.push(x);
        assert(arms@.take(i + 1).subrange(0, i as int) == arms@.take(i as int));
        assert(out@.subrange(0, i as int) == prev);
        i = i + 1;
    }
    assert(arms@.take(arms.len() as int) == arms@);
    out
}

// ---------------------------------------------------------------------------------------------
// Registers, `$timescale` text, output connections
// ---------------------------------------------------------------------------------------------

/// Whether statement `s` can write `name`: an assignment to it, a memory write to an array
/// whose `stem__` begins it, or a nested statement that can.
pub open spec fn stmt_assigns(s: IrStmt, name: Seq<char>) -> bool
    decreases s, 0nat,
{
    match s {
        IrStmt::BlockingAssign { lhs, .. } => lhs@ == name,
        IrStmt::NonBlockingAssign { lhs, .. } => lhs@ == name,
        IrStmt::MemAssign { stem, .. } => {
            let p = stem@ + seq!['_', '_'];
            name.len() >= p.len() && name.take(p.len() as int) == p
        },
        IrStmt::IfElse { then_body, else_body, .. } => stmts_assign(then_body@, name) || stmts_assign(else_body@, name),
        IrStmt::Case { arms, default, .. } => arms_assign(arms@, name) || stmts_assign(default@, name),
        IrStmt::For { body, .. } => stmts_assign(body@, name),
        _ => false,
    }
}

/// Some statement of `ss` can write `name`.
pub open spec fn stmts_assign(ss: Seq<IrStmt>, name: Seq<char>) -> bool
    decreases ss, 0nat,
{
    if ss.len() == 0 {
        false
    } else {
        stmts_assign(ss.subrange(0, ss.len() - 1), name) || stmt_assigns(ss[ss.len() - 1], name)
    }
}

/// Some arm body of `arms` can write `name`.
pub open spec fn arms_assign(arms: Seq<IrCaseArm>, name: Seq<char>) -> bool
    decreases arms, 0nat,
{
    if arms.len() == 0 {
        false
    } else {
        arms_assign(arms.subrange(0, arms.len() - 1), name) || stmts_assign(arms[arms.len() - 1].body@, name)
    }
}

fn starts_with_stem(name: &String, stem: &String) -> (b: bool)
    ensures
        b == ({
            let p = stem@ + seq!['_', '_'];
            name@.len() >= p.len() && name@.take(p.len() as int) == p
        }),
{
    let n = chars_of(name.as_str());
    let sep = ['_', '_'];
    let p = concat_chars(&chars_of(stem.as_str()), &sep);
    assert(sep@ =~= seq!['_', '_']);
    if n.len() < p.len() {
        return false;
    }
    let mut i: usize = 0;
    while i < p.len()
        invariant
            i <= p.len() <= n.len(),
            n@ == name@,
            p@ == stem@ + seq!['_', '_'],
            forall|k: int| 0 <= k < i ==> n@[k] == p@[k],
        decreases p.len() - i,
    {
        if n[i] != p[i] {
            assert(name@.take(p.len() as int)[i as int] != p@[i as int]);
            return false;
        }
        i = i + 1;
    }
    assert(name@.take(p.len() as int) =~= p@);
    true
}

/// Whether `stmts` can write `name` (see [`stmt_assigns`]).
pub fn stmts_assign_to(stmts: &Vec<IrStmt>, name: &String) -> (b: bool)
    ensures
        b == stmts_assign(stmts@, name@),
    decreases stmts@, 1nat,
{
    let mut i: usize = 0;
    while i < stmts.len()
        invariant
            i <= stmts.len(),
            !stmts_assign(stmts@.take(i as int), name@),
        decreases stmts.len() - i,
    {
        assert(stmts@.take(i + 1).subrange(0, i as int) == stmts@.take(i as int));
        assert(decreases_to!(stmts@ => stmts@[i as int]));
        if stmt_assigns_exec(&stmts[i], name) {
            proof {
                lemma_stmts_assign_prefix(stmts@, name@, i + 1);
            }
            return true;
        }
        i = i + 1;
    }
    assert(stmts@.take(stmts.len() as int) == stmts@);
    false
}

proof fn lemma_stmts_assign_prefix(ss: Seq<IrStmt>, name: Seq<char>, k: int)
    requires
        0 <= k <= ss.len(),
        stmts_assign(ss.take(k), name),
    ensures
        stmts_assign(ss, name),
    decreases ss.len() - k,
{
    if k < ss.len() {
        assert(ss.take(k + 1).subrange(0, k) == ss.take(k));
        lemma_stmts_assign_prefix(ss, name, k + 1);
    } else {
        assert(ss.take(k) == ss);
    }
}

proof fn lemma_arms_assign_prefix(arms: Seq<IrCaseArm>, name: Seq<char>, k: int)
    requires
        0 <= k <= arms.len(),
        arms_assign(arms.take(k), name),
    ensures
        arms_assign(arms, name),
    decreases arms.len() - k,
{
    if k < arms.len() {
        assert(arms.take(k + 1).subrange(0, k) == arms.take(k));
        lemma_arms_assign_prefix(arms, name, k + 1);
    } else {
        assert(arms.take(k) == arms);
    }
}

fn stmt_assigns_exec(s: &IrStmt, name: &String) -> (b: bool)
    ensures
        b == stmt_assigns(*s, name@),
    decreases s, 0nat,
{
    match s {
        IrStmt::BlockingAssign { lhs, .. } => *lhs == *name,
        IrStmt::NonBlockingAssign { lhs, .. } => *lhs == *name,
        IrStmt::MemAssign { stem, .. } => starts_with_stem(name, stem),
        IrStmt::IfElse { then_body, else_body, .. } => stmts_assign_to(then_body, name) || stmts_assign_to(else_body, name),
        IrStmt::Case { arms, default, .. } => arms_assign_to(arms, name) || stmts_assign_to(default, name),
        IrStmt::For { body, .. } => stmts_assign_to(body, name),
        _ => false,
    }
}

fn arm_assigns(a: &IrCaseArm, name: &String) -> (b: bool)
    ensures
        b == stmts_assign(a.body@, name@),
    decreases a, 1nat,
{
    stmts_assign_to(&a.body, name)
}

fn arms_assign_to(arms: &Vec<IrCaseArm>, name: &String) -> (b: bool)
    ensures
        b == arms_assign(arms@, name@),
    decreases arms@, 0nat,
{
    let mut i: usize = 0;
    while i < arms.len()
        invariant
            i <= arms.len(),
            !arms_assign(arms@.take(i as int), name@),
        decreases arms.len() - i,
    {
        assert(arms@.take(i + 1).subrange(0, i as int) == arms@.take(i as int));
        assert(decreases_to!(arms@ => arms@[i as int]));
        if arm_assigns(&arms[i], name) {
            proof {
                lemma_arms_assign_prefix(arms@, name@, i + 1);
            }
            return true;
        }
        i = i + 1;
    }
    assert(arms@.take(arms.len() as int) == arms@);
    false
}

/// Whether `c` has the Unicode `Alphabetic` property (`char::is_alphabetic`).
pub uninterp spec fn unicode_alphabetic(c: char) -> bool;

/// `char::is_alphabetic`. Claims only that the result is the named property of `c`.
#[verifier::external_body]
fn char_is_alphabetic(c: char) -> (b: bool)
    ensures
        b == unicode_alphabetic(c),
{
    c.is_alphabetic()
}

/// Index of the first alphabetic character of `t`.
pub open spec fn first_alphabetic(t: Seq<char>) -> Option<int>
    decreases t.len(),
{
    if t.len() == 0 {
        None
    } else if unicode_alphabetic(t[0]) {
        Some(0)
    } else {
        match first_alphabetic(t.drop_first()) {
            Some(i) => Some(i + 1),
            None => None,
        }
    }
}

/// `$timescale` text: the trimmed token with a space between magnitude and unit (`1ns` →
/// `1 ns`); `1 ns` when empty; unchanged when it already holds whitespace, has no letter, or
/// starts with one.
pub open spec fn vcd_timescale_spec(ts: Seq<char>) -> Seq<char> {
    let t = trim_spec(ts);
    if t.len() == 0 {
        seq!['1', ' ', 'n', 's']
    } else if exists|k: int| 0 <= k < t.len() && is_ws(#[trigger] t[k]) {
        t
    } else {
        match first_alphabetic(t) {
            Some(i) => if i == 0 { t } else { t.take(i) + seq![' '] + t.skip(i) },
            None => t,
        }
    }
}

/// `$timescale` text of a timescale token (see [`vcd_timescale_spec`]).
pub fn normalize_vcd_timescale_line(ts: &str) -> (r: String)
    ensures
        r@ == vcd_timescale_spec(ts@),
{
    let t = trim_chars(&chars_of(ts));
    if t.len() == 0 {
        let one_ns = ['1', ' ', 'n', 's'];
        assert(one_ns@ =~= seq!['1', ' ', 'n', 's']);
        return string_from_chars(&one_ns);
    }
    let mut k: usize = 0;
    while k < t.len()
        invariant
            k <= t.len(),
            t@ == trim_spec(ts@),
            t@.len() > 0,
            forall|j: int| 0 <= j < k ==> !is_ws(#[trigger] t@[j]),
        decreases t.len() - k,
    {
        if char_is_ws(t[k]) {
            assert(is_ws(t@[k as int]));
            return string_from_chars(&t);
        }
        k = k + 1;
    }
    let mut i: usize = 0;
    while i < t.len()
        invariant
            i <= t.len(),
            forall|j: int| 0 <= j < i ==> !unicode_alphabetic(#[trigger] t@[j]),
            forall|j: int| 0 <= j < t@.len() ==> !is_ws(#[trigger] t@[j]),
            t@.len() > 0,
            t@ == trim_spec(ts@),
        decreases t.len() - i,
    {
        if char_is_alphabetic(t[i]) {
            proof {
                lemma_first_alphabetic(t@, i as int);
            }
            if i == 0 {
                return string_from_chars(&t);
            }
            let head = slice_chars(&t, 0, i);
            let tail = slice_chars(&t, i, t.len());
            let mut out = head;
            out.push(' ');
            let out = concat_chars(&out, &tail);
            assert(out@ =~= t@.take(i as int) + seq![' '] + t@.skip(i as int));
            return string_from_chars(&out);
        }
        i = i + 1;
    }
    proof {
        lemma_first_alphabetic(t@, i as int);
    }
    string_from_chars(&t)
}

proof fn lemma_first_alphabetic(t: Seq<char>, i: int)
    requires
        0 <= i <= t.len(),
        forall|j: int| 0 <= j < i ==> !unicode_alphabetic(#[trigger] t[j]),
    ensures
        i < t.len() && unicode_alphabetic(t[i]) ==> first_alphabetic(t) == Some(i),
        i == t.len() ==> first_alphabetic(t) is None,
    decreases i,
{
    if i > 0 {
        let u = t.drop_first();
        assert forall|j: int| 0 <= j < i - 1 implies !unicode_alphabetic(#[trigger] u[j]) by {
            assert(u[j] == t[j + 1]);
        }
        assert(!unicode_alphabetic(t[0]));
        if i < t.len() {
            assert(u[i - 1] == t[i]);
        }
        lemma_first_alphabetic(u, i - 1);
    }
}

/// Parent signal that an output port connection drives as a whole: a plain identifier, or a
/// constant part-select covering the signal's full declared width.
pub open spec fn output_lhs_spec(e: IrExpr, widths: Seq<(String, usize)>) -> Option<Seq<char>> {
    match e {
        IrExpr::Ident(s) => Some(s@),
        IrExpr::PartSelect { value, msb, lsb } => match *value {
            IrExpr::Ident(name) => match (const_index_spec(*msb), const_index_spec(*lsb)) {
                (Some(hi), Some(lo)) => {
                    let d = if hi >= lo { hi - lo } else { lo - hi };
                    let w_full = match assoc(widths, name@) {
                        Some(w) => w as int,
                        None => 0,
                    };
                    if d + 1 == w_full && w_full > 0 { Some(name@) } else { None }
                },
                _ => None,
            },
            _ => None,
        },
        _ => None,
    }
}

/// Parent signal driven as a whole by an output port connection (see [`output_lhs_spec`]).
pub fn output_port_lhs(e: &IrExpr, widths: &Vec<(String, usize)>) -> (r: Option<String>)
    ensures
        match r {
            Some(n) => output_lhs_spec(*e, widths@) == Some(n@),
            None => output_lhs_spec(*e, widths@) is None,
        },
{
    match e {
        IrExpr::Ident(s) => Some(s.clone()),
        IrExpr::PartSelect { value, msb, lsb } => match &**value {
            IrExpr::Ident(name) => {
                let hi = match ir_try_eval_const_index_expr(msb) {
                    Some(v) => v,
                    None => {
                        return None;
                    },
                };
                let lo = match ir_try_eval_const_index_expr(lsb) {
                    Some(v) => v,
                    None => {
                        return None;
                    },
                };
                let d: i128 = if hi >= lo { hi as i128 - lo as i128 } else { lo as i128 - hi as i128 };
                let w_full: i128 = match assoc_get(widths, name) {
                    Some(w) => w as i128,
                    None => 0,
                };
                if d + 1 == w_full && w_full > 0 {
                    Some(name.clone())
                } else {
                    None
                }
            },
            _ => None,
        },
        _ => None,
    }
}

proof fn lemma_prefix_seq_elems(es: Seq<IrExpr>, rs: Seq<IrExpr>, p: Seq<char>)
    requires
        prefix_seq_rel(es, rs, p),
    ensures
        rs.len() == es.len(),
        forall|k: int| 0 <= k < es.len() ==> prefix_rel(#[trigger] es[k], rs[k], p),
    decreases es.len(),
{
    if es.len() > 0 {
        let a = es.subrange(0, es.len() - 1);
        let b = rs.subrange(0, rs.len() - 1);
        lemma_prefix_seq_elems(a, b, p);
        assert forall|k: int| 0 <= k < es.len() implies prefix_rel(#[trigger] es[k], rs[k], p) by {
            if k < es.len() - 1 {
                assert(es[k] == a[k]);
                assert(rs[k] == b[k]);
            }
        }
    }
}
} // verus!
