//! Verilog-style signed arithmetic helpers (`$signed`, `>>>`).
use vstd::prelude::*;
use vstd::arithmetic::power2::{pow2, lemma_pow2_pos, lemma_pow2_unfold, lemma_pow2_strictly_increases};

verus! {

/// Width used by the arithmetic helpers: `width_bits` clamped to `1..=64`.
pub open spec fn clamp_width(width_bits: u32) -> nat {
    if width_bits < 1 { 1 } else if width_bits > 64 { 64 } else { width_bits as nat }
}

/// Two's complement value of the low `w` bits of `v`.
pub open spec fn sign_extend_spec(v: int, w: nat) -> int
    recommends 1 <= w,
{
    let m = v % (pow2(w) as int);
    if m >= pow2((w - 1) as nat) { m - pow2(w) } else { m }
}

/// Arithmetic right shift of an integer by `sh` bits (floor division by `2^sh`).
pub open spec fn floor_shr_spec(v: int, sh: nat) -> int {
    v / (pow2(sh) as int)
}

/// `2^w` for `w <= 64`, as an `i128`.
fn pow2_i128(w: u64) -> (p: i128)
    requires
        w <= 64,
    ensures
        p as int == pow2(w as nat),
        p > 0,
{
    proof {
        vstd::arithmetic::power2::lemma2_to64();
        vstd::arithmetic::power2::lemma2_to64_rest();
    }
    let mut p: i128 = 1;
    let mut i: u64 = 0;
    while i < w
        invariant
            i <= w <= 64,
            p as int == pow2(i as nat),
            pow2(64) == 0x10000000000000000,
        decreases w - i,
    {
        proof {
            lemma_pow2_unfold((i + 1) as nat);
            lemma_pow2_strictly_increases(i as nat, 64);
        }
        p = p * 2;
        i = i + 1;
    }
    proof {
        lemma_pow2_pos(w as nat);
    }
    p
}

/// Sign-extend a `width_bits`-wide two's complement value to the full `i64` range
/// (`width_bits` is clamped to `1..=64`; at 64 the value is already full width).
pub fn sign_extend_i64(v: i64, width_bits: u32) -> (r: i64)
    ensures
        r == sign_extend_spec(v as int, clamp_width(width_bits)),
        -pow2((clamp_width(width_bits) - 1) as nat) <= r < pow2((clamp_width(width_bits) - 1) as nat),
{
    let w: u64 = if width_bits < 1 { 1 } else if width_bits > 64 { 64 } else { width_bits as u64 };
    let p = pow2_i128(w);
    let half = pow2_i128(w - 1);
    proof {
        lemma_pow2_unfold(w as nat);
        lemma_pow2_pos((w - 1) as nat);
        if w < 64 {
            lemma_pow2_strictly_increases((w - 1) as nat, 63);
        }
        vstd::arithmetic::power2::lemma2_to64();
        vstd::arithmetic::power2::lemma2_to64_rest();
    }
    let wide = v as i128;
    match wide.checked_rem_euclid(p) {
        Some(m) => {
            if m >= half {
                (m - p) as i64
            } else {
                m as i64
            }
        },
        None => 0,
    }
}

/// IEEE 1364 `>>>`: the low `width_bits` bits of `v` (width clamped to `1..=64`) read as a
/// signed value, shifted right arithmetically by `sh` (clamped to 63).
pub fn arith_shr_i64(v: i64, sh: u32, width_bits: u32) -> (r: i64)
    ensures
        r == floor_shr_spec(
            sign_extend_spec(v as int, clamp_width(width_bits)),
            if sh > 63 { 63 } else { sh as nat },
        ),
{
    let signed = sign_extend_i64(v, width_bits);
    let s: u64 = if sh > 63 { 63 } else { sh as u64 };
    let d = pow2_i128(s);
    assert(-0x8000_0000_0000_0000 <= (signed as int) / (d as int) <= 0x7fff_ffff_ffff_ffff)
        by (nonlinear_arith)
        requires
            d >= 1,
            i64::MIN <= signed <= i64::MAX,
    ;
    match (signed as i128).checked_div_euclid(d) {
        Some(q) => {
            q as i64
        },
        None => 0,
    }
}

} // verus!
