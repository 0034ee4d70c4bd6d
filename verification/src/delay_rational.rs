//! Exact `#delay` values as reduced rationals (Verilog time units).
use vstd::prelude::*;
use crate::strutil::{
    all_digits, chars_of, concat_chars, digit_val, digits_value, find_char, find_char_spec, is_digit, parse_u128, parse_unsigned_spec, slice_chars,
    strip_plus, trim_chars, trim_end_char, trim_end_char_spec, trim_spec, trim_start_spec, trim_end_spec, is_ws,
};

verus! {

/// `num` / `den` time-unit steps from the `` `timescale`` **unit** (first operand).
#[derive(Debug, Clone, Copy, PartialEq, Eq, Hash, Structural)]
pub struct DelayRational {
    pub num: u128,
    pub den: u128,
}

/// Greatest common divisor (Euclid).
pub open spec fn gcd_spec(a: nat, b: nat) -> nat
    decreases b,
{
    if b == 0 { a } else { gcd_spec(b, a % b) }
}

/// `min(a * b, u128::MAX)`.
pub open spec fn sat_mul_spec(a: nat, b: nat) -> nat {
    if a * b > u128::MAX { u128::MAX as nat } else { a * b }
}

/// `min(a + b, u128::MAX)`.
pub open spec fn sat_add_spec(a: nat, b: nat) -> nat {
    if a + b > u128::MAX { u128::MAX as nat } else { a + b }
}

/// The zero delay `0/1`.
pub open spec fn zero_delay() -> DelayRational {
    DelayRational { num: 0, den: 1 }
}

/// `num/den` in lowest terms; `0/1` when either operand is zero.
pub open spec fn new_spec(num: nat, den: nat) -> DelayRational {
    if den == 0 || num == 0 {
        zero_delay()
    } else {
        let g = gcd_spec(num, den);
        DelayRational { num: (num / g) as u128, den: (den / g) as u128 }
    }
}

proof fn lemma_gcd_pos(a: nat, b: nat)
    requires
        a > 0 || b > 0,
    ensures
        gcd_spec(a, b) > 0,
    decreases b,
{
    if b > 0 {
        lemma_gcd_pos(b, a % b);
    }
}

proof fn lemma_mod_combo(k: int, x: int, y: int, g: int)
    requires
        g > 0,
        k >= 0,
        x >= 0,
        y >= 0,
        x % g == 0,
        y % g == 0,
    ensures
        (k * x + y) % g == 0,
{
    vstd::arithmetic::div_mod::lemma_fundamental_div_mod(x, g);
    vstd::arithmetic::div_mod::lemma_fundamental_div_mod(y, g);
    let p = x / g;
    let q = y / g;
    assert(k * x + y == (k * p + q) * g) by (nonlinear_arith)
        requires
            x == g * p,
            y == g * q,
    ;
    vstd::arithmetic::div_mod::lemma_mod_multiples_basic(k * p + q, g);
}

/// The greatest common divisor divides both operands.
pub proof fn lemma_gcd_divides(a: nat, b: nat)
    requires
        a > 0 || b > 0,
    ensures
        gcd_spec(a, b) > 0,
        a % gcd_spec(a, b) == 0,
        b % gcd_spec(a, b) == 0,
    decreases b,
{
    if b == 0 {
        vstd::arithmetic::div_mod::lemma_mod_self_0(a as int);
    } else {
        lemma_gcd_divides(b, a % b);
        let g = gcd_spec(a, b);
        vstd::arithmetic::div_mod::lemma_fundamental_div_mod(a as int, b as int);
        assert(a == (a / b) * b + a % b) by (nonlinear_arith)
            requires
                a == b * (a / b) + a % b,
        ;
        lemma_mod_combo((a / b) as int, b as int, (a % b) as int, g as int);
    }
}

proof fn lemma_quotient_pos(x: nat, g: nat)
    requires
        x > 0,
        g > 0,
        x % g == 0,
    ensures
        x / g > 0,
        x / g <= x,
{
    vstd::arithmetic::div_mod::lemma_fundamental_div_mod(x as int, g as int);
    if x / g == 0 {
        assert(x == g * 0 + 0);
    }
    assert(x / g <= x) by (nonlinear_arith)
        requires
            x == g * (x / g),
            g > 0,
            x / g > 0,
    ;
}

fn gcd_u128(a: u128, b: u128) -> (g: u128)
    ensures
        g == gcd_spec(a as nat, b as nat),
{
    let mut x = a;
    let mut y = b;
    while y != 0
        invariant
            gcd_spec(x as nat, y as nat) == gcd_spec(a as nat, b as nat),
        decreases y,
    {
        let t = y;
        y = x % y;
        x = t;
    }
    x
}

/// `a * b`, or `u128::MAX` when the product does not fit.
pub fn sat_mul_u128(a: u128, b: u128) -> (r: u128)
    ensures
        r == sat_mul_spec(a as nat, b as nat),
{
    match a.checked_mul(b) {
        Some(p) => p,
        None => u128::MAX,
    }
}

/// `a + b`, or `u128::MAX` when the sum does not fit.
pub fn sat_add_u128(a: u128, b: u128) -> (r: u128)
    ensures
        r == sat_add_spec(a as nat, b as nat),
{
    a.saturating_add(b)
}

/// `10^n`.
pub open spec fn pow10(n: nat) -> nat
    decreases n,
{
    if n == 0 { 1 } else { 10 * pow10((n - 1) as nat) }
}

/// `min(10^n, u128::MAX)`.
pub open spec fn sat_pow10(n: nat) -> nat {
    if pow10(n) > u128::MAX { u128::MAX as nat } else { pow10(n) }
}

/// Base-10 value of the digit string `s`, saturating at `u128::MAX` (it stays there once
/// reached).
pub open spec fn sat_digits_value(s: Seq<char>) -> nat
    decreases s.len(),
{
    if s.len() == 0 {
        0
    } else {
        let v = sat_digits_value(s.drop_last()) * 10 + digit_val(s.last());
        if v > u128::MAX { u128::MAX as nat } else { v }
    }
}

/// `n` zero digits.
pub open spec fn zeros(n: nat) -> Seq<char> {
    Seq::new(n, |i: int| '0')
}

/// `s` holds a digit other than `0`.
pub open spec fn has_nonzero(s: Seq<char>) -> bool {
    exists|i: int| 0 <= i < s.len() && s[i] != '0'
}

/// Ceiling of the decimal numeral `0.d × 10^p` (the digits `d`, the point `p` places after
/// their start), saturating at `u128::MAX`: the digits before the point, zeros appended where
/// the point lies beyond them, plus one when a digit after the point is not `0`.
pub open spec fn decimal_ceil(d: Seq<char>, p: int) -> nat {
    if p >= d.len() {
        sat_digits_value(d + zeros((p - d.len()) as nat))
    } else {
        let q = if p < 0 { 0 } else { p };
        let base = sat_digits_value(d.take(q));
        if has_nonzero(d.skip(q)) {
            if base + 1 > u128::MAX { u128::MAX as nat } else { base + 1 }
        } else {
            base
        }
    }
}

/// `c` spells the lower-case letter `w`, in either case.
pub open spec fn ci_char(c: char, w: char) -> bool {
    c == w || ((c as u32) + 32 == (w as u32) && 'a' <= w && w <= 'z')
}

/// `s` spells the lower-case word `w`, letters in either case.
pub open spec fn ci_word(s: Seq<char>, w: Seq<char>) -> bool {
    s.len() == w.len() && forall|i: int| 0 <= i < s.len() ==> ci_char(#[trigger] s[i], w[i])
}

/// `s` without one leading `+` or `-`.
pub open spec fn strip_sign(s: Seq<char>) -> Seq<char> {
    if s.len() > 0 && (s[0] == '+' || s[0] == '-') { s.drop_first() } else { s }
}

/// Index of the first `e` or `E` in `s`.
pub open spec fn find_exp_spec(s: Seq<char>) -> Option<int>
    decreases s.len(),
{
    if s.len() == 0 {
        None
    } else if s[0] == 'e' || s[0] == 'E' {
        Some(0)
    } else {
        match find_exp_spec(s.drop_first()) {
            Some(i) => Some(i + 1),
            None => None,
        }
    }
}

/// A decimal floating-point literal `digits[.digits][(e|E)[+|-]digits]` (at least one mantissa
/// digit), without its sign: the digits before the point, the digits after it, and the exponent.
pub open spec fn float_parts(body: Seq<char>) -> Option<(Seq<char>, Seq<char>, int)> {
    let (mant, exp) = match find_exp_spec(body) {
        Some(e) => (body.take(e), Some(body.skip(e + 1))),
        None => (body, None),
    };
    let (ip, fp) = match find_char_spec(mant, '.') {
        Some(d) => (mant.take(d), mant.skip(d + 1)),
        None => (mant, Seq::<char>::empty()),
    };
    let x: Option<int> = match exp {
        None => Some(0),
        Some(es) => {
            let ed = strip_sign(es);
            if ed.len() > 0 && all_digits(ed) {
                Some(if es.len() > 0 && es[0] == '-' { -(digits_value(ed) as int) } else { digits_value(ed) as int })
            } else {
                None
            }
        },
    };
    if all_digits(ip) && all_digits(fp) && ip.len() + fp.len() > 0 && x is Some {
        Some((ip, fp, x->0))
    } else {
        None
    }
}

/// Reading of a `#delay` lexeme when it is neither an integer nor an `int.frac` decimal, as a
/// floating-point literal (`1e3`, `1.5e2`, `inf`, ...) rounded up to whole units: `inf`,
/// `infinity`, `nan` (either case), a negative value or zero read as `1`; a positive value as its
/// exact ceiling, saturating at `u128::MAX`; anything else is zero.
pub open spec fn float_delay_spec(t: Seq<char>) -> DelayRational {
    let neg = t.len() > 0 && t[0] == '-';
    let body = strip_sign(t);
    if ci_word(body, "inf"@) || ci_word(body, "infinity"@) || ci_word(body, "nan"@) {
        new_spec(1, 1)
    } else {
        match float_parts(body) {
            None => zero_delay(),
            Some((ip, fp, x)) => if neg || !has_nonzero(ip + fp) {
                new_spec(1, 1)
            } else {
                new_spec(decimal_ceil(ip + fp, ip.len() + x), 1)
            },
        }
    }
}

proof fn lemma_zeros_step(s: Seq<char>, j: nat)
    ensures
        (s + zeros(j + 1)).drop_last() == s + zeros(j),
        (s + zeros(j + 1)).last() == '0',
        (s + zeros(j + 1)).len() > 0,
{
    assert((s + zeros(j + 1)).drop_last() =~= s + zeros(j));
}

/// Zeros appended to a saturated value keep it saturated.
proof fn lemma_sat_zeros_max(s: Seq<char>, n: nat)
    requires
        sat_digits_value(s) == u128::MAX,
    ensures
        sat_digits_value(s + zeros(n)) == u128::MAX,
    decreases n,
{
    if n == 0 {
        assert(s + zeros(0) =~= s);
    } else {
        lemma_sat_zeros_max(s, (n - 1) as nat);
        lemma_zeros_step(s, (n - 1) as nat);
        assert(digit_val('0') == 0);
    }
}

/// A digit string with a digit other than `0` is worth at least 1.
proof fn lemma_sat_pos(s: Seq<char>)
    requires
        all_digits(s),
        has_nonzero(s),
    ensures
        sat_digits_value(s) >= 1,
    decreases s.len(),
{
    let i = choose|i: int| 0 <= i < s.len() && s[i] != '0';
    if s.last() != '0' {
        assert(is_digit(s[s.len() - 1]));
        assert(digit_val(s.last()) >= 1);
    } else {
        assert(s.drop_last()[i] == s[i]);
        assert(all_digits(s.drop_last())) by {
            assert forall|k: int| 0 <= k < s.drop_last().len() implies #[trigger] is_digit(s.drop_last()[k]) by {
                assert(s.drop_last()[k] == s[k]);
            }
        }
        lemma_sat_pos(s.drop_last());
    }
}

/// Each zero appended multiplies a value of at least 1 by ten, up to saturation.
proof fn lemma_sat_grow(s: Seq<char>, n: nat)
    requires
        sat_digits_value(s) >= 1,
    ensures
        sat_digits_value(s + zeros(n)) >= (if pow10(n) > u128::MAX { u128::MAX as nat } else { pow10(n) }),
    decreases n,
{
    if n == 0 {
        assert(s + zeros(0) =~= s);
    } else {
        lemma_sat_grow(s, (n - 1) as nat);
        lemma_zeros_step(s, (n - 1) as nat);
        assert(digit_val('0') == 0);
    }
}

/// Thirty-nine or more zeros after a digit string worth at least 1 saturate it.
proof fn lemma_sat_zeros_saturate(s: Seq<char>, n: nat)
    requires
        sat_digits_value(s) >= 1,
        n >= 39,
    ensures
        sat_digits_value(s + zeros(n)) == u128::MAX,
{
    reveal_with_fuel(pow10, 40);
    assert(pow10(39) > u128::MAX);
    lemma_sat_grow(s, 39);
    assert(s + zeros(n) =~= (s + zeros(39)) + zeros((n - 39) as nat));
    lemma_sat_zeros_max(s + zeros(39), (n - 39) as nat);
}

/// [`sat_digits_value`] of `d[from..to]`.
fn sat_digits_exec(d: &Vec<char>, from: usize, to: usize) -> (v: u128)
    requires
        from <= to <= d.len(),
        all_digits(d@.subrange(from as int, to as int)),
    ensures
        v == sat_digits_value(d@.subrange(from as int, to as int)),
{
    let mut v: u128 = 0;
    let mut i = from;
    assert(d@.subrange(from as int, from as int) =~= Seq::<char>::empty());
    while i < to
        invariant
            from <= i <= to <= d.len(),
            all_digits(d@.subrange(from as int, to as int)),
            v == sat_digits_value(d@.subrange(from as int, i as int)),
        decreases to - i,
    {
        assert(d@.subrange(from as int, i + 1).drop_last() =~= d@.subrange(from as int, i as int));
        assert(d@.subrange(from as int, i + 1).last() == d@[i as int]);
        assert(is_digit(d@.subrange(from as int, to as int)[i - from]));
        let dv: u128 = ((d[i] as u32) - ('0' as u32)) as u128;
        v = match v.checked_mul(10) {
            Some(m) => match m.checked_add(dv) {
                Some(x) => x,
                None => u128::MAX,
            },
            None => u128::MAX,
        };
        i = i + 1;
    }
    v
}

/// Whether every character of `d[from..to]` is a decimal digit.
fn all_digits_exec(d: &Vec<char>, from: usize, to: usize) -> (b: bool)
    requires
        from <= to <= d.len(),
    ensures
        b == all_digits(d@.subrange(from as int, to as int)),
{
    let mut i = from;
    while i < to
        invariant
            from <= i <= to <= d.len(),
            forall|k: int| from <= k < i ==> is_digit(#[trigger] d@[k]),
        decreases to - i,
    {
        if !('0' <= d[i] && d[i] <= '9') {
            assert(!is_digit(d@.subrange(from as int, to as int)[i - from]));
            return false;
        }
        i = i + 1;
    }
    assert forall|k: int| 0 <= k < to - from implies #[trigger] is_digit(d@.subrange(from as int, to as int)[k]) by {
        assert(d@.subrange(from as int, to as int)[k] == d@[k + from]);
    }
    true
}

/// Whether `d[from..to]` holds a character other than `0`.
fn has_nonzero_exec(d: &Vec<char>, from: usize, to: usize) -> (b: bool)
    requires
        from <= to <= d.len(),
    ensures
        b == has_nonzero(d@.subrange(from as int, to as int)),
{
    let mut i = from;
    while i < to
        invariant
            from <= i <= to <= d.len(),
            forall|k: int| from <= k < i ==> #[trigger] d@[k] == '0',
        decreases to - i,
    {
        if d[i] != '0' {
            assert(d@.subrange(from as int, to as int)[i - from] != '0');
            return true;
        }
        i = i + 1;
    }
    assert forall|k: int| 0 <= k < to - from implies #[trigger] d@.subrange(from as int, to as int)[k] == '0' by {
        assert(d@.subrange(from as int, to as int)[k] == d@[k + from]);
    }
    false
}

/// Whether `v` spells the lower-case word `w` (see [`ci_word`]).
fn ci_word_exec(v: &Vec<char>, w: &str) -> (b: bool)
    ensures
        b == ci_word(v@, w@),
{
    let wc = chars_of(w);
    if v.len() != wc.len() {
        return false;
    }
    let mut i: usize = 0;
    while i < v.len()
        invariant
            v.len() == wc.len(),
            wc@ == w@,
            i <= v.len(),
            forall|k: int| 0 <= k < i ==> ci_char(#[trigger] v@[k], wc@[k]),
        decreases v.len() - i,
    {
        let c = v[i];
        let x = wc[i];
        if !(c == x || ('a' <= x && x <= 'z' && (c as u32) == (x as u32) - 32)) {
            assert(!ci_char(v@[i as int], wc@[i as int]));
            return false;
        }
        i = i + 1;
    }
    true
}

/// Index of the first `e` or `E` in `v` (see [`find_exp_spec`]).
fn find_exp(v: &Vec<char>) -> (r: Option<usize>)
    ensures
        match r {
            Some(i) => i < v.len() && find_exp_spec(v@) == Some(i as int),
            None => find_exp_spec(v@) is None,
        },
{
    let mut i: usize = 0;
    assert(v@.skip(0) == v@);
    while i < v.len()
        invariant
            i <= v.len(),
            find_exp_spec(v@) == match find_exp_spec(v@.skip(i as int)) {
                Some(k) => Some(k + i),
                None => None::<int>,
            },
        decreases v.len() - i,
    {
        assert(v@.skip(i as int)[0] == v@[i as int]);
        if v[i] == 'e' || v[i] == 'E' {
            return Some(i);
        }
        assert(v@.skip(i as int).drop_first() == v@.skip(i + 1));
        i = i + 1;
    }
    assert(v@.skip(i as int) =~= Seq::<char>::empty());
    None
}

/// The parts of a floating-point literal `body` (see [`float_parts`]): the digits before and
/// after the point, and the exponent's sign and magnitude, the magnitude only where it is at
/// most `2^100` (`huge` otherwise).
fn split_float(body: &Vec<char>) -> (r: Option<(Vec<char>, Vec<char>, bool, u128, bool)>)
    ensures
        match r {
            None => float_parts(body@) is None,
            Some((ip, fp, x_neg, x_mag, huge)) => float_parts(body@) matches Some((i2, f2, x)) && ip@ == i2 && fp@
                == f2 && (huge ==> (if x_neg { x < -0x10_0000_0000_0000_0000_0000_0000 } else { x
                > 0x10_0000_0000_0000_0000_0000_0000 })) && (!huge ==> x_mag <= 0x10_0000_0000_0000_0000_0000_0000 && x == (
            if x_neg { -(x_mag as int) } else { x_mag as int })),
        },
{
    let fe = find_exp(body);
    let mant_end: usize = match fe {
        Some(e) => e,
        None => body.len(),
    };
    let mant = slice_chars(body, 0, mant_end);
    let (ip, fp) = match find_char(&mant, '.') {
        Some(dd) => (slice_chars(&mant, 0, dd), slice_chars(&mant, dd + 1, mant.len())),
        None => (slice_chars(&mant, 0, mant.len()), Vec::new()),
    };
    assert(mant@.subrange(0, mant@.len() as int) == mant@);
    assert(mant@ == match find_exp_spec(body@) {
        Some(e) => body@.take(e),
        None => body@,
    });
    assert((ip@, fp@) == match find_char_spec(mant@, '.') {
        Some(dd) => (mant@.take(dd), mant@.skip(dd + 1)),
        None => (mant@, Seq::<char>::empty()),
    });
    let ip_ok = all_digits_exec(&ip, 0, ip.len());
    let fp_ok = all_digits_exec(&fp, 0, fp.len());
    assert(ip@.subrange(0, ip@.len() as int) == ip@);
    assert(fp@.subrange(0, fp@.len() as int) == fp@);
    if !(ip_ok && fp_ok && ip.len() + fp.len() > 0) {
        return None;
    }
    match fe {
        None => Some((ip, fp, false, 0, false)),
        Some(e) => {
            let es = slice_chars(body, e + 1, body.len());
            assert(es@ == body@.skip(e + 1));
            let es_start: usize = if es.len() > 0 && (es[0] == '+' || es[0] == '-') { 1 } else { 0 };
            let x_neg = es.len() > 0 && es[0] == '-';
            let ed = slice_chars(&es, es_start, es.len());
            assert(ed@ == strip_sign(es@));
            if ed.len() == 0 || !all_digits_exec(&ed, 0, ed.len()) {
                assert(ed@.subrange(0, ed@.len() as int) == ed@);
                return None;
            }
            assert(ed@.subrange(0, ed@.len() as int) == ed@);
            assert(is_digit(ed@[0]));
            assert(strip_plus(ed@) == ed@);
            match parse_u128(&ed) {
                Some(m) => {
                    if m <= 0x10_0000_0000_0000_0000_0000_0000 {
                        Some((ip, fp, x_neg, m, false))
                    } else {
                        Some((ip, fp, x_neg, 0, true))
                    }
                },
                None => Some((ip, fp, x_neg, 0, true)),
            }
        },
    }
}

/// [`decimal_ceil`] of the digits `d` with the point at `p`.
fn decimal_ceil_exec(d: &Vec<char>, p: i128) -> (v: u128)
    requires
        all_digits(d@),
    ensures
        v == decimal_ceil(d@, p as int),
{
    assert(d@.subrange(0, d@.len() as int) == d@);
    let l: i128 = d.len() as i128;
    if p >= l {
        let mut v = sat_digits_exec(d, 0, d.len());
        let n: u128 = (p - l) as u128;
        let mut j: u128 = 0;
        assert(d@ + zeros(0) =~= d@);
        while j < n && v < u128::MAX
            invariant
                j <= n,
                v == sat_digits_value(d@ + zeros(j as nat)),
            decreases n - j,
        {
            proof {
                lemma_zeros_step(d@, j as nat);
                assert(digit_val('0') == 0);
            }
            v = match v.checked_mul(10) {
                Some(m) => m,
                None => u128::MAX,
            };
            j = j + 1;
        }
        proof {
            if j < n {
                lemma_sat_zeros_max(d@ + zeros(j as nat), (n - j) as nat);
                assert((d@ + zeros(j as nat)) + zeros((n - j) as nat) =~= d@ + zeros(n as nat));
            }
        }
        v
    } else {
        let q: usize = if p < 0 { 0 } else { p as usize };
        assert(d@.subrange(0, q as int) == d@.take(q as int));
        assert(d@.subrange(q as int, d@.len() as int) == d@.skip(q as int));
        assert(all_digits(d@.subrange(0, q as int)));
        let base = sat_digits_exec(d, 0, q);
        let nz = has_nonzero_exec(d, q, d.len());
        if nz {
            if base == u128::MAX { u128::MAX } else { base + 1 }
        } else {
            base
        }
    }
}

/// Reads `t` as a floating-point literal rounded up to whole units (see [`float_delay_spec`]).
fn float_delay(t: &Vec<char>) -> (r: DelayRational)
    ensures
        r == float_delay_spec(t@),
{
    let neg = t.len() > 0 && t[0] == '-';
    let start: usize = if t.len() > 0 && (t[0] == '+' || t[0] == '-') { 1 } else { 0 };
    let body = slice_chars(t, start, t.len());
    assert(body@ == strip_sign(t@));
    if ci_word_exec(&body, "inf") || ci_word_exec(&body, "infinity") || ci_word_exec(&body, "nan") {
        return DelayRational::new(1, 1);
    }
    let (ip, fp, x_neg, x_mag, huge) = match split_float(&body) {
        Some(parts) => parts,
        None => {
            return DelayRational::new(0, 1);
        },
    };
    let ghost (gi, gf, x) = float_parts(body@).unwrap();
    let d = concat_chars(&ip, &fp);
    assert(d@.subrange(0, d@.len() as int) == d@);
    assert(all_digits(d@)) by {
        assert forall|k: int| 0 <= k < d@.len() implies #[trigger] is_digit(d@[k]) by {
            if k < ip@.len() {
                assert(d@[k] == ip@[k]);
            } else {
                assert(d@[k] == fp@[k - ip@.len()]);
            }
        }
    }
    if neg || !has_nonzero_exec(&d, 0, d.len()) {
        return DelayRational::new(1, 1);
    }
    proof {
        lemma_sat_pos(d@);
    }
    if huge {
        if x_neg {
            assert(d@.take(0) =~= Seq::<char>::empty());
            assert(d@.skip(0) == d@);
            assert(decimal_ceil(d@, ip@.len() + x) == 1);
            return DelayRational::new(1, 1);
        } else {
            proof {
                lemma_sat_zeros_saturate(d@, (ip@.len() + x - d@.len()) as nat);
            }
            return DelayRational::new(u128::MAX, 1);
        }
    }
    let xi: i128 = if x_neg { -(x_mag as i128) } else { x_mag as i128 };
    let p: i128 = ip.len() as i128 + xi;
    let v = decimal_ceil_exec(&d, p);
    DelayRational::new(v, 1)
}

/// Value of a `#delay` lexeme (`5`, `0.5`, `10.25`), whitespace around it ignored; other
/// floating-point spellings as [`float_delay_spec`] reads them.
pub open spec fn lexeme_delay_spec(s: Seq<char>) -> DelayRational {
    let t = trim_spec(s);
    if t.len() == 0 {
        zero_delay()
    } else {
        match parse_unsigned_spec(t, u128::MAX as nat) {
            Some(n) => new_spec(n, 1),
            None => match find_char_spec(t, '.') {
                Some(p) => {
                    let ip = match parse_unsigned_spec(t.take(p), u128::MAX as nat) {
                        Some(v) => v,
                        None => 0,
                    };
                    let ft = trim_end_char_spec(t.skip(p + 1), '0');
                    if ft.len() == 0 {
                        new_spec(ip, 1)
                    } else {
                        match parse_unsigned_spec(ft, u128::MAX as nat) {
                            Some(fv) => {
                                let p10 = sat_pow10(ft.len());
                                new_spec(sat_add_spec(sat_mul_spec(ip, p10), fv), p10)
                            },
                            None => float_delay_spec(t),
                        }
                    }
                },
                None => float_delay_spec(t),
            },
        }
    }
}

/// Value of a `DelayRational` times `unit`, rounded down, with the product saturating.
pub open spec fn to_femtoseconds_spec(d: DelayRational, unit_fs: nat) -> nat {
    if d.den == 0 { 0 } else { sat_mul_spec(d.num as nat, unit_fs) / (d.den as nat) }
}

/// Sum of two delays with saturating cross products, reduced.
pub open spec fn add_spec(a: DelayRational, b: DelayRational) -> DelayRational {
    if a.den == 0 || b.den == 0 {
        zero_delay()
    } else {
        new_spec(
            sat_add_spec(sat_mul_spec(a.num as nat, b.den as nat), sat_mul_spec(b.num as nat, a.den as nat)),
            sat_mul_spec(a.den as nat, b.den as nat),
        )
    }
}

/// `min(10^n, u128::MAX)` computed by repeated multiplication.
fn sat_pow10_u128(n: usize) -> (r: u128)
    ensures
        r == sat_pow10(n as nat),
        r > 0,
{
    let mut r: u128 = 1;
    let mut i: usize = 0;
    let mut saturated = false;
    while i < n
        invariant
            i <= n,
            saturated ==> r == u128::MAX && pow10(i as nat) > u128::MAX,
            !saturated ==> r == pow10(i as nat),
        decreases n - i,
    {
        if !saturated {
            match r.checked_mul(10) {
                Some(x) => { r = x; },
                None => { r = u128::MAX; saturated = true; },
            }
        }
        i = i + 1;
    }
    if !saturated { assert(r > 0) by {
        lemma_pow10_pos(n as nat);
    } }
    r
}

proof fn lemma_pow10_pos(n: nat)
    ensures
        pow10(n) > 0,
    decreases n,
{
    if n > 0 {
        lemma_pow10_pos((n - 1) as nat);
    }
}

impl DelayRational {
    /// Builds `num/den` in lowest terms; `0/1` when either operand is zero.
    pub fn new(num: u128, den: u128) -> (r: Self)
        ensures
            r == new_spec(num as nat, den as nat),
            r.den > 0,
    {
        if den == 0 || num == 0 {
            return Self { num: 0, den: 1 };
        }
        let g = gcd_u128(num, den);
        proof {
            lemma_gcd_divides(num as nat, den as nat);
            lemma_quotient_pos(den as nat, g as nat);
        }
        Self { num: num / g, den: den / g }
    }

    /// `n/1`.
    pub fn from_int(n: u64) -> (r: Self)
        ensures
            r == new_spec(n as nat, 1),
    {
        Self::new(n as u128, 1)
    }

    /// Parses a `#lexeme` body (no `#`), e.g. `5`, `0.5`, `10.25`; other floating-point spellings
    /// (`1e3`, `1.5e2`, a digit string too large for `u128`) are rounded up to whole units, and
    /// `inf`, `nan`, a negative value or zero read as one unit (see [`float_delay_spec`]).
    pub fn from_delay_lexeme(s: &str) -> (r: Self)
        ensures
            r == lexeme_delay_spec(s@),
    {
        let all = chars_of(s);
        let t = trim_chars(&all);
        if t.len() == 0 {
            return Self::new(0, 1);
        }
        if let Some(n) = parse_u128(&t) {
            return Self::new(n, 1);
        }
        if let Some(dot) = find_char(&t, '.') {
            let ip_chars = slice_chars(&t, 0, dot);
            assert(ip_chars@ == t@.take(dot as int));
            let ip: u128 = match parse_u128(&ip_chars) {
                Some(v) => v,
                None => 0,
            };
            let frac_raw = slice_chars(&t, dot + 1, t.len());
            assert(frac_raw@ == t@.skip(dot + 1));
            let ft = trim_end_char(&frac_raw, '0');
            let ghost tt = trim_spec(s@);
            assert(t@ == tt);
            assert(parse_unsigned_spec(tt, u128::MAX as nat) is None);
            assert(find_char_spec(tt, '.') == Some(dot as int));
            assert(ip == match parse_unsigned_spec(tt.take(dot as int), u128::MAX as nat) {
                        Some(v) => v,
                        None => 0,
                    });
            assert(ft@ == trim_end_char_spec(tt.skip(dot + 1), '0'));
            if ft.len() == 0 {
                return Self::new(ip, 1);
            }
            if let Some(fv) = parse_u128(&ft) {
                let p10 = sat_pow10_u128(ft.len());
                let num = sat_add_u128(sat_mul_u128(ip, p10), fv);
                return Self::new(num, p10);
            }
        }
        float_delay(&t)
    }
    /// Sum of two delays (cross products saturate at `u128::MAX`).
    pub fn add(self, b: Self) -> (r: Self)
        ensures
            r == add_spec(self, b),
    {
        if self.den == 0 || b.den == 0 {
            return Self::new(0, 1);
        }
        let num = sat_add_u128(sat_mul_u128(self.num, b.den), sat_mul_u128(b.num, self.den));
        let den = sat_mul_u128(self.den, b.den);
        Self::new(num, den)
    }

    /// `self * n` (numerator saturates at `u128::MAX`), reduced.
    pub fn saturating_mul_u128(self, n: u128) -> (r: Self)
        ensures
            r == (if n == 0 || self.num == 0 {
                zero_delay()
            } else {
                new_spec(sat_mul_spec(self.num as nat, n as nat), self.den as nat)
            }),
    {
        if n == 0 || self.num == 0 {
            return Self::new(0, 1);
        }
        Self::new(sat_mul_u128(self.num, n), self.den)
    }

    /// Event time in femtoseconds: `(num * unit_fs) / den`, the product saturating.
    pub fn to_femtoseconds(self, unit_fs: u128) -> (r: u128)
        ensures
            r == to_femtoseconds_spec(self, unit_fs as nat),
    {
        if self.den == 0 {
            return 0;
        }
        sat_mul_u128(self.num, unit_fs) / self.den
    }

    /// Ceiling of the value in whole time units, capped at `usize::MAX`; `0` for a zero denominator.
    pub fn ceil_whole_time_units(self) -> (r: usize)
        ensures
            self.den == 0 ==> r == 0,
            self.den != 0 ==> r as nat == (if ceil_div_spec(self.num as nat, self.den as nat) > usize::MAX {
                usize::MAX as nat
            } else {
                ceil_div_spec(self.num as nat, self.den as nat)
            }),
    {
        if self.den == 0 {
            return 0;
        }
        let q = self.num / self.den;
        assert(self.num % self.den != 0 ==> q < u128::MAX) by {
            if self.num % self.den != 0 {
                assert(self.den >= 2);
                vstd::arithmetic::div_mod::lemma_fundamental_div_mod(self.num as int, self.den as int);
                assert(q * 2 <= self.num) by (nonlinear_arith)
                    requires self.num == self.den * q + self.num % self.den, self.den >= 2, q >= 0,
                        self.num % self.den >= 0;
            }
        }
        let c: u128 = if self.num % self.den != 0 { q + 1 } else { q };
        proof {
            lemma_ceil_div(self.num as nat, self.den as nat);
        }
        if c > usize::MAX as u128 { usize::MAX } else { c as usize }
    }
}

/// `ceil(a / b)` for `b > 0`.
pub open spec fn ceil_div_spec(a: nat, b: nat) -> nat {
    ((a + b - 1) as nat) / b
}

proof fn lemma_ceil_div(a: nat, b: nat)
    requires
        b > 0,
    ensures
        ceil_div_spec(a, b) == (if a % b != 0 { a / b + 1 } else { a / b }),
        a / b < u128::MAX || a <= u128::MAX ==> true,
{
    vstd::arithmetic::div_mod::lemma_fundamental_div_mod(a as int, b as int);
    vstd::arithmetic::div_mod::lemma_fundamental_div_mod((a + b - 1) as int, b as int);
    let q = a / b;
    let r = a % b;
    if r == 0 {
        assert((a + b - 1) as nat / b == q) by (nonlinear_arith)
            requires a == b * q, b > 0, (a + b - 1) == b * ((a + b - 1) as nat / b) + (a + b - 1) as nat % b,
                (a + b - 1) as nat % b < b;
    } else {
        assert((a + b - 1) as nat / b == q + 1) by (nonlinear_arith)
            requires a == b * q + r, 0 < r < b, (a + b - 1) == b * ((a + b - 1) as nat / b) + (a + b - 1) as nat % b,
                (a + b - 1) as nat % b < b;
    }
}

/// `new` keeps the value: `r.num / r.den == num / den` whenever both operands are non-zero.
pub proof fn law_new_preserves_ratio(num: u128, den: u128)
    requires
        num > 0,
        den > 0,
    ensures
        new_spec(num as nat, den as nat).num * den == num * new_spec(num as nat, den as nat).den,
{
    lemma_gcd_divides(num as nat, den as nat);
    let g = gcd_spec(num as nat, den as nat);
    vstd::arithmetic::div_mod::lemma_fundamental_div_mod(num as int, g as int);
    vstd::arithmetic::div_mod::lemma_fundamental_div_mod(den as int, g as int);
    lemma_quotient_pos(num as nat, g);
    lemma_quotient_pos(den as nat, g);
    let p = num as nat / g;
    let q = den as nat / g;
    assert(p * den == num * q) by (nonlinear_arith)
        requires num == g * p, den == g * q;
}

/// Where no product or sum saturates, `add` gives exactly the sum of the two values:
/// `r.num / r.den == a.num / a.den + b.num / b.den`, with a positive denominator.
pub proof fn law_add_exact(a: DelayRational, b: DelayRational)
    requires
        a.den > 0,
        b.den > 0,
        a.num * b.den + b.num * a.den <= u128::MAX,
        a.den * b.den <= u128::MAX,
    ensures
        add_spec(a, b).den > 0,
        add_spec(a, b).num * (a.den * b.den) == (a.num * b.den + b.num * a.den) * add_spec(a, b).den,
{
    let x = a.num * b.den;
    let y = b.num * a.den;
    let d = a.den * b.den;
    assert(x >= 0 && y >= 0 && d > 0 && x + y <= u128::MAX && x <= u128::MAX && y <= u128::MAX) by (nonlinear_arith)
        requires
            a.den > 0,
            b.den > 0,
            a.num >= 0,
            b.num >= 0,
            a.num * b.den + b.num * a.den <= u128::MAX,
            x == a.num * b.den,
            y == b.num * a.den,
            d == a.den * b.den,
    ;
    assert(sat_mul_spec(a.num as nat, b.den as nat) == x);
    assert(sat_mul_spec(b.num as nat, a.den as nat) == y);
    assert(sat_mul_spec(a.den as nat, b.den as nat) == d);
    let n = (x + y) as nat;
    assert(add_spec(a, b) == new_spec(n, d as nat));
    let r = add_spec(a, b);
    if n > 0 {
        law_new_preserves_ratio(n as u128, d as u128);
        lemma_gcd_divides(n, d as nat);
        lemma_quotient_pos(d as nat, gcd_spec(n, d as nat));
        assert(r.num * d == n * r.den);
    } else {
        assert(r.num == 0 && r.den == 1);
        assert(r.num * d == 0);
        assert(n * r.den == 0);
    }
    assert(r.num * (a.den * b.den) == (a.num * b.den + b.num * a.den) * r.den) by {
        assert(d == a.den * b.den);
        assert(n == a.num * b.den + b.num * a.den);
    }
}

/// Scaling both operands scales their greatest common divisor.
proof fn lemma_gcd_scale(a: nat, b: nat, c: nat)
    requires
        c > 0,
    ensures
        gcd_spec(a * c, b * c) == gcd_spec(a, b) * c,
    decreases b,
{
    if b == 0 {
        assert(b * c == 0);
    } else {
        assert(b * c > 0) by (nonlinear_arith)
            requires
                b > 0,
                c > 0,
        ;
        vstd::arithmetic::div_mod::lemma_fundamental_div_mod(a as int, b as int);
        let q = a / b;
        let r = a % b;
        assert(a * c == q * (b * c) + r * c && 0 <= r * c < b * c) by (nonlinear_arith)
            requires
                a == b * q + r,
                0 <= r < b,
                c > 0,
        ;
        vstd::arithmetic::div_mod::lemma_fundamental_div_mod_converse((a * c) as int, (b * c) as int, q as int, (r * c) as int);
        lemma_gcd_scale(b, r, c);
    }
}

/// `new` gives lowest terms: the numerator and denominator of its result have no common
/// divisor but 1 (`0/1` included).
pub proof fn law_new_lowest_terms(num: nat, den: nat)
    requires
        num <= u128::MAX,
        den <= u128::MAX,
    ensures
        gcd_spec(new_spec(num, den).num as nat, new_spec(num, den).den as nat) == 1,
{
    if den == 0 || num == 0 {
        assert(gcd_spec(1, 0) == 1);
        assert(gcd_spec(0, 1) == gcd_spec(1, 0nat % 1nat));
    } else {
        lemma_gcd_divides(num, den);
        let g = gcd_spec(num, den);
        vstd::arithmetic::div_mod::lemma_fundamental_div_mod(num as int, g as int);
        vstd::arithmetic::div_mod::lemma_fundamental_div_mod(den as int, g as int);
        lemma_quotient_pos(num, g);
        lemma_quotient_pos(den, g);
        let p = num / g;
        let q = den / g;
        assert(num == p * g && den == q * g) by (nonlinear_arith)
            requires
                num == g * p,
                den == g * q,
        ;
        lemma_gcd_scale(p, q, g);
        assert(gcd_spec(p, q) * g == g);
        assert(gcd_spec(p, q) == 1) by (nonlinear_arith)
            requires
                gcd_spec(p, q) * g == g,
                g > 0,
        ;
        assert(p <= num && q <= den);
        assert(new_spec(num, den).num == p && new_spec(num, den).den == q);
    }
}

/// The sum of two delays is in lowest terms.
pub proof fn law_add_lowest_terms(a: DelayRational, b: DelayRational)
    ensures
        gcd_spec(add_spec(a, b).num as nat, add_spec(a, b).den as nat) == 1,
{
    if a.den == 0 || b.den == 0 {
        law_new_lowest_terms(0, 1);
    } else {
        law_new_lowest_terms(
            sat_add_spec(sat_mul_spec(a.num as nat, b.den as nat), sat_mul_spec(b.num as nat, a.den as nat)),
            sat_mul_spec(a.den as nat, b.den as nat),
        );
    }
}

/// Adding zero to a delay in lowest terms gives the delay back.
pub proof fn law_add_zero(a: DelayRational)
    requires
        a.den > 0,
        gcd_spec(a.num as nat, a.den as nat) == 1,
    ensures
        add_spec(a, zero_delay()) == a,
{
    assert(sat_mul_spec(a.num as nat, 1) == a.num);
    assert(sat_mul_spec(0, a.den as nat) == 0);
    assert(sat_mul_spec(a.den as nat, 1) == a.den);
    if a.num == 0 {
        assert(gcd_spec(0, a.den as nat) == gcd_spec(a.den as nat, 0));
    } else {
        assert(new_spec(a.num as nat, a.den as nat) == a);
    }
}

/// Adding delays does not depend on the order of the operands.
pub proof fn law_add_commutes(a: DelayRational, b: DelayRational)
    ensures
        add_spec(a, b) == add_spec(b, a),
{
    assert(sat_mul_spec(a.den as nat, b.den as nat) == sat_mul_spec(b.den as nat, a.den as nat)) by (nonlinear_arith);
}

/// The first `c` in `a + b`, when `a` holds none and `b` starts with one, is at `a.len()`.
proof fn lemma_find_char_after(a: Seq<char>, b: Seq<char>, c: char)
    requires
        forall|k: int| 0 <= k < a.len() ==> #[trigger] a[k] != c,
        b.len() > 0,
        b[0] == c,
    ensures
        find_char_spec(a + b, c) == Some(a.len() as int),
    decreases a.len(),
{
    if a.len() == 0 {
        assert(a + b =~= b);
    } else {
        assert((a + b).drop_first() =~= a.drop_first() + b);
        lemma_find_char_after(a.drop_first(), b, c);
    }
}

/// A digit string with nothing around it is read as its value.
proof fn lemma_parse_digits(i: Seq<char>)
    requires
        i.len() > 0,
        all_digits(i),
        digits_value(i) <= u128::MAX,
    ensures
        parse_unsigned_spec(i, u128::MAX as nat) == Some(digits_value(i)),
{
    assert(is_digit(i[0]));
    assert(strip_plus(i) == i);
}

/// A text that starts and ends with a digit or a `.` is its own trim.
proof fn lemma_trim_digits(s: Seq<char>)
    requires
        s.len() > 0,
        is_digit(s[0]) || s[0] == '.',
        is_digit(s.last()),
    ensures
        trim_spec(s) == s,
{
    assert(!is_ws(s[0]));
    assert(trim_start_spec(s) == s);
    assert(!is_ws(s.last()));
    assert(trim_end_spec(s) == s);
}

/// A whole-number `#delay` lexeme is worth its decimal value: `n / 1`.
pub proof fn law_integer_delay(i: Seq<char>)
    requires
        i.len() > 0,
        all_digits(i),
        digits_value(i) <= u128::MAX,
    ensures
        lexeme_delay_spec(i).num == digits_value(i),
        lexeme_delay_spec(i).den == 1,
{
    assert(is_digit(i[0]) && is_digit(i.last()));
    lemma_trim_digits(i);
    lemma_parse_digits(i);
    let v = digits_value(i);
    if v > 0 {
        assert(gcd_spec(v, 1) == gcd_spec(1, v % 1));
        assert(v % 1 == 0);
        assert(gcd_spec(1, 0) == 1);
    }
}

/// A decimal `#delay` lexeme `I.F` (digits `I`, possibly none, then digits `F` not ending in
/// 0) is worth exactly `I + F / 10^len(F)` time units whenever that fits: `num / den` of the
/// result equals `(I * 10^len(F) + F) / 10^len(F)`, so `1.5` reads as `3/2`.
pub proof fn law_decimal_delay(i: Seq<char>, f: Seq<char>)
    requires
        all_digits(i),
        all_digits(f),
        f.len() > 0,
        f.last() != '0',
        pow10(f.len()) <= u128::MAX,
        digits_value(i) * pow10(f.len()) + digits_value(f) <= u128::MAX,
    ensures
        lexeme_delay_spec(i + seq!['.'] + f).den > 0,
        lexeme_delay_spec(i + seq!['.'] + f).num * pow10(f.len()) == (digits_value(i) * pow10(f.len()) + digits_value(f))
            * lexeme_delay_spec(i + seq!['.'] + f).den,
{
    let s = i + seq!['.'] + f;
    let k = i.len() as int;
    let p = pow10(f.len());
    let iv = digits_value(i);
    let fv = digits_value(f);
    lemma_pow10_pos(f.len());
    assert(s[k] == '.');
    assert(s.last() == f.last());
    assert(is_digit(f.last()));
    if k > 0 {
        assert(s[0] == i[0] && is_digit(i[0]));
    }
    lemma_trim_digits(s);
    assert(strip_plus(s) == s);
    assert(!is_digit(s[k]));
    assert(parse_unsigned_spec(s, u128::MAX as nat) is None);
    assert forall|j: int| 0 <= j < i.len() implies #[trigger] i[j] != '.' by {
        assert(is_digit(i[j]));
    }
    assert(s =~= i + (seq!['.'] + f));
    lemma_find_char_after(i, seq!['.'] + f, '.');
    assert(s.take(k) =~= i);
    assert(s.skip(k + 1) =~= f);
    assert(trim_end_char_spec(f, '0') == f);
    assert(iv <= iv * p && iv * p <= u128::MAX) by (nonlinear_arith)
        requires
            p >= 1,
            iv * p + fv <= u128::MAX,
            fv >= 0,
            iv >= 0,
    ;
    let ip = if k > 0 {
        lemma_parse_digits(i);
        iv
    } else {
        assert(digits_value(i) == 0);
        0
    };
    assert(ip == iv);
    assert(parse_unsigned_spec(s.take(k), u128::MAX as nat) == (if k > 0 { Some(iv) } else { None::<nat> }));
    lemma_parse_digits(f);
    assert(sat_pow10(f.len()) == p);
    assert(sat_mul_spec(iv, p) == iv * p);
    let n = iv * p + fv;
    assert(sat_add_spec(iv * p, fv) == n);
    assert(lexeme_delay_spec(s) == new_spec(n, p));
    let d = new_spec(n, p);
    if n == 0 {
        assert(d.num == 0 && d.den == 1);
    } else {
        law_new_preserves_ratio(n as u128, p as u128);
        lemma_gcd_divides(n, p);
        lemma_quotient_pos(p, gcd_spec(n, p));
    }
}

/// A delay in femtoseconds is rounded down: for a delay `num / den` of `unit` femtoseconds per
/// time unit whose product `num * unit` fits, the result `f` satisfies
/// `f * den <= num * unit < (f + 1) * den`.
pub proof fn law_femtoseconds_round_down(d: DelayRational, unit: nat)
    requires
        d.den > 0,
        d.num * unit <= u128::MAX,
    ensures
        to_femtoseconds_spec(d, unit) * d.den <= d.num * unit,
        d.num * unit < (to_femtoseconds_spec(d, unit) + 1) * d.den,
{
    let x = (d.num * unit) as int;
    let y = d.den as int;
    vstd::arithmetic::div_mod::lemma_fundamental_div_mod(x, y);
    vstd::arithmetic::div_mod::lemma_mod_bound(x, y);
    assert((x / y) * y <= x && x < (x / y + 1) * y) by (nonlinear_arith)
        requires
            x == y * (x / y) + x % y,
            0 <= x % y < y,
    ;
}

/// Rounding up to whole time units: for `num / den` the result `c` is the least whole number
/// with `num <= c * den`.
pub proof fn law_ceil_whole_units(num: nat, den: nat)
    requires
        den > 0,
    ensures
        num <= ceil_div_spec(num, den) * den,
        ceil_div_spec(num, den) == 0 || (ceil_div_spec(num, den) - 1) * den < num,
{
    lemma_ceil_div(num, den);
    vstd::arithmetic::div_mod::lemma_fundamental_div_mod(num as int, den as int);
    vstd::arithmetic::div_mod::lemma_mod_bound(num as int, den as int);
    let q = num / den;
    let r = num % den;
    assert(num <= ceil_div_spec(num, den) * den && (ceil_div_spec(num, den) == 0 || (ceil_div_spec(num, den) - 1) * den
        < num)) by (nonlinear_arith)
        requires
            num == den * q + r,
            0 <= r < den,
            ceil_div_spec(num, den) == (if r != 0 { q + 1 } else { q }),
            q >= 0,
    ;
}

} // verus!
