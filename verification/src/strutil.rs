//! Character-sequence helpers shared by the lexer, the parsers of time literals and the VCD writer.
use vstd::prelude::*;

verus! {

broadcast use vstd::string::group_string_axioms;

/// The characters of `s`, in order.
pub fn chars_of(s: &str) -> (v: Vec<char>)
    ensures
        v@ == s@,
{
    let mut v: Vec<char> = Vec::new();
    for c in it: s.chars()
        invariant
            v@ == it.seq().take(it.index() as int),
    {
        v.push(c);
    }
    v
}

/// Appends `c` to `s` (`String::push`).
#[verifier::external_body]
pub(crate) fn string_push(s: &mut String, c: char)
    ensures
        final(s)@ == old(s)@.push(c),
{
    s.push(c);
}

/// A `String` holding exactly the characters `v`.
pub fn string_from_chars(v: &[char]) -> (s: String)
    ensures
        s@ == v@,
{
    let mut s = String::new();
    let mut i: usize = 0;
    while i < v.len()
        invariant
            i <= v.len(),
            s@ == v@.take(i as int),
        decreases v.len() - i,
    {
        string_push(&mut s, v[i]);
        assert(v@.take(i + 1) == v@.take(i as int).push(v@[i as int]));
        i = i + 1;
    }
    assert(v@.take(v.len() as int) == v@);
    s
}


/// ASCII decimal digit.
pub open spec fn is_digit(c: char) -> bool {
    '0' <= c && c <= '9'
}

/// Value of an ASCII decimal digit.
pub open spec fn digit_val(c: char) -> nat {
    (c as u32 - '0' as u32) as nat
}

/// Every character of `s` is a decimal digit.
pub open spec fn all_digits(s: Seq<char>) -> bool {
    forall|i: int| 0 <= i < s.len() ==> #[trigger] is_digit(s[i])
}

/// Base-10 value of a digit string (most significant digit first).
pub open spec fn digits_value(s: Seq<char>) -> nat
    decreases s.len(),
{
    if s.len() == 0 {
        0
    } else {
        digits_value(s.drop_last()) * 10 + digit_val(s.last())
    }
}

/// `s` without one leading `+`.
pub open spec fn strip_plus(s: Seq<char>) -> Seq<char> {
    if s.len() > 0 && s[0] == '+' { s.drop_first() } else { s }
}

/// What `str::parse` gives for an unsigned integer type whose largest value is `max`:
/// an optional `+`, then one or more decimal digits whose value does not exceed `max`.
pub open spec fn parse_unsigned_spec(s: Seq<char>, max: nat) -> Option<nat> {
    let body = strip_plus(s);
    if body.len() > 0 && all_digits(body) && digits_value(body) <= max {
        Some(digits_value(body))
    } else {
        None
    }
}

/// A longer digit string is worth at least as much as any of its prefixes.
pub proof fn lemma_digits_value_prefix(s: Seq<char>, k: int)
    requires
        0 <= k <= s.len(),
        all_digits(s),
    ensures
        digits_value(s.take(k)) <= digits_value(s),
    decreases s.len() - k,
{
    if k < s.len() {
        lemma_digits_value_prefix(s, k + 1);
        assert(s.take(k + 1).drop_last() == s.take(k));
    } else {
        assert(s.take(k) == s);
    }
}

/// Parses `s` as `str::parse::<u128>` does.
pub fn parse_u128(s: &[char]) -> (r: Option<u128>)
    ensures
        match parse_unsigned_spec(s@, u128::MAX as nat) {
            Some(v) => r == Some(v as u128),
            None => r is None,
        },
{
    let start: usize = if s.len() > 0 && s[0] == '+' { 1 } else { 0 };
    let ghost body = strip_plus(s@);
    assert(body == s@.skip(start as int));
    if start >= s.len() {
        return None;
    }
    let mut acc: u128 = 0;
    let mut i: usize = start;
    while i < s.len()
        invariant
            start <= i <= s.len(),
            body == s@.skip(start as int),
            body == strip_plus(s@),
            all_digits(body.take(i - start)),
            acc as nat == digits_value(body.take(i - start)),
        decreases s.len() - i,
    {
        let c = s[i];
        assert(body[i - start] == s@[i as int]);
        assert(body.take(i + 1 - start).drop_last() == body.take(i - start));
        assert(body.take(i + 1 - start).last() == c);
        if !('0' <= c && c <= '9') {
            assert(!is_digit(body[i - start]));
            return None;
        }
        let d: u128 = ((c as u32) - ('0' as u32)) as u128;
        if acc > (u128::MAX - d) / 10 {
            proof {
                assert(acc * 10 + d > u128::MAX) by (nonlinear_arith)
                    requires acc > (u128::MAX - d) / 10, d <= 9;
                if all_digits(body) {
                    lemma_digits_value_prefix(body, i + 1 - start);
                }
            }
            return None;
        }
        acc = acc * 10 + d;
        i = i + 1;
    }
    assert(body.take(s.len() - start) == body);
    Some(acc)
}


/// `char::is_whitespace` (Unicode `White_Space`).
pub open spec fn is_ws(c: char) -> bool {
    ||| c == ' '
    ||| ('\t' <= c && c <= '\r')
    ||| c == '\u{85}'
    ||| c == '\u{a0}'
    ||| c == '\u{1680}'
    ||| ('\u{2000}' <= c && c <= '\u{200a}')
    ||| c == '\u{2028}'
    ||| c == '\u{2029}'
    ||| c == '\u{202f}'
    ||| c == '\u{205f}'
    ||| c == '\u{3000}'
}

/// Executable `char::is_whitespace`.
pub fn char_is_ws(c: char) -> (b: bool)
    ensures
        b == is_ws(c),
{
    c == ' ' || ('\t' <= c && c <= '\r') || c == '\u{85}' || c == '\u{a0}' || c == '\u{1680}'
        || ('\u{2000}' <= c && c <= '\u{200a}') || c == '\u{2028}' || c == '\u{2029}'
        || c == '\u{202f}' || c == '\u{205f}' || c == '\u{3000}'
}

/// `s` without leading whitespace (`str::trim_start`).
pub open spec fn trim_start_spec(s: Seq<char>) -> Seq<char>
    decreases s.len(),
{
    if s.len() > 0 && is_ws(s[0]) { trim_start_spec(s.drop_first()) } else { s }
}

/// `s` without trailing whitespace (`str::trim_end`).
pub open spec fn trim_end_spec(s: Seq<char>) -> Seq<char>
    decreases s.len(),
{
    if s.len() > 0 && is_ws(s.last()) { trim_end_spec(s.drop_last()) } else { s }
}

/// `s` without leading or trailing whitespace (`str::trim`).
pub open spec fn trim_spec(s: Seq<char>) -> Seq<char> {
    trim_end_spec(trim_start_spec(s))
}

/// `s` without trailing copies of `c` (`str::trim_end_matches(c)`).
pub open spec fn trim_end_char_spec(s: Seq<char>, c: char) -> Seq<char>
    decreases s.len(),
{
    if s.len() > 0 && s.last() == c { trim_end_char_spec(s.drop_last(), c) } else { s }
}

/// Index of the first `c` in `s`, if any (`str::find(c)`, counted in characters).
pub open spec fn find_char_spec(s: Seq<char>, c: char) -> Option<int>
    decreases s.len(),
{
    if s.len() == 0 {
        None
    } else if s[0] == c {
        Some(0)
    } else {
        match find_char_spec(s.drop_first(), c) {
            Some(i) => Some(i + 1),
            None => None,
        }
    }
}

proof fn lemma_trim_start_skip(s: Seq<char>, i: int)
    requires
        0 <= i <= s.len(),
        forall|j: int| 0 <= j < i ==> #[trigger] is_ws(s[j]),
    ensures
        trim_start_spec(s) == trim_start_spec(s.skip(i)),
    decreases i,
{
    if i > 0 {
        assert(s.skip(1) == s.drop_first());
        assert forall|j: int| 0 <= j < i - 1 implies #[trigger] is_ws(s.drop_first()[j]) by {
            assert(s.drop_first()[j] == s[j + 1]);
        }
        lemma_trim_start_skip(s.drop_first(), i - 1);
        assert(s.drop_first().skip(i - 1) == s.skip(i));
    } else {
        assert(s.skip(0) == s);
    }
}

proof fn lemma_trim_end_take(s: Seq<char>, i: int)
    requires
        0 <= i <= s.len(),
        forall|j: int| i <= j < s.len() ==> #[trigger] is_ws(s[j]),
    ensures
        trim_end_spec(s) == trim_end_spec(s.take(i)),
    decreases s.len() - i,
{
    if i < s.len() {
        assert forall|j: int| i <= j < s.drop_last().len() implies #[trigger] is_ws(s.drop_last()[j]) by {
            assert(s.drop_last()[j] == s[j]);
        }
        lemma_trim_end_take(s.drop_last(), i);
        assert(s.drop_last().take(i) == s.take(i));
    } else {
        assert(s.take(i) == s);
    }
}

/// A copy of `v[from..to]`.
pub fn slice_chars(v: &[char], from: usize, to: usize) -> (r: Vec<char>)
    requires
        from <= to <= v.len(),
    ensures
        r@ == v@.subrange(from as int, to as int),
{
    let mut r: Vec<char> = Vec::new();
    let mut i = from;
    while i < to
        invariant
            from <= i <= to <= v.len(),
            r@ == v@.subrange(from as int, i as int),
        decreases to - i,
    {
        r.push(v[i]);
        i = i + 1;
    }
    r
}

/// `s.trim()` on a character vector.
pub fn trim_chars(v: &[char]) -> (r: Vec<char>)
    ensures
        r@ == trim_spec(v@),
{
    let mut a: usize = 0;
    while a < v.len() && char_is_ws(v[a])
        invariant
            a <= v.len(),
            forall|j: int| 0 <= j < a ==> #[trigger] is_ws(v@[j]),
        decreases v.len() - a,
    {
        a = a + 1;
    }
    proof {
        lemma_trim_start_skip(v@, a as int);
    }
    let mut b: usize = v.len();
    while b > a && char_is_ws(v[b - 1])
        invariant
            a <= b <= v.len(),
            forall|j: int| b <= j < v.len() ==> #[trigger] is_ws(v@[j]),
        decreases b - a,
    {
        b = b - 1;
    }
    let ghost t = v@.skip(a as int);
    proof {
        assert(a == v.len() || !is_ws(v@[a as int]));
        assert(trim_start_spec(t) == t);
        assert forall|j: int| b - a <= j < t.len() implies #[trigger] is_ws(t[j]) by {
            assert(t[j] == v@[j + a]);
        }
        lemma_trim_end_take(t, b - a);
        assert(t.take(b - a) == v@.subrange(a as int, b as int));
        let u = t.take(b - a);
        if u.len() > 0 {
            assert(u.last() == v@[b - 1]);
        }
    }
    slice_chars(v, a, b)
}

/// `s.trim_start()` on a character vector.
pub fn trim_start_chars(v: &[char]) -> (r: Vec<char>)
    ensures
        r@ == trim_start_spec(v@),
{
    let mut a: usize = 0;
    while a < v.len() && char_is_ws(v[a])
        invariant
            a <= v.len(),
            forall|j: int| 0 <= j < a ==> #[trigger] is_ws(v@[j]),
        decreases v.len() - a,
    {
        a = a + 1;
    }
    proof {
        lemma_trim_start_skip(v@, a as int);
        assert(a == v.len() || !is_ws(v@[a as int]));
        assert(trim_start_spec(v@.skip(a as int)) == v@.skip(a as int));
        assert(v@.skip(a as int) == v@.subrange(a as int, v.len() as int));
    }
    slice_chars(v, a, v.len())
}

/// `s.trim_end()` on a character vector.
pub fn trim_end_chars(v: &[char]) -> (r: Vec<char>)
    ensures
        r@ == trim_end_spec(v@),
{
    let mut b: usize = v.len();
    assert(v@.take(b as int) == v@);
    while b > 0 && char_is_ws(v[b - 1])
        invariant
            b <= v.len(),
            trim_end_spec(v@) == trim_end_spec(v@.take(b as int)),
        decreases b,
    {
        assert(v@.take(b as int).drop_last() == v@.take(b - 1));
        b = b - 1;
    }
    assert(v@.take(b as int) == v@.subrange(0, b as int));
    slice_chars(v, 0, b)
}

/// `s.trim_end_matches(c)` on a character vector.
pub fn trim_end_char(v: &[char], c: char) -> (r: Vec<char>)
    ensures
        r@ == trim_end_char_spec(v@, c),
{
    let mut b: usize = v.len();
    assert(v@.take(b as int) == v@);
    while b > 0 && v[b - 1] == c
        invariant
            b <= v.len(),
            trim_end_char_spec(v@, c) == trim_end_char_spec(v@.take(b as int), c),
        decreases b,
    {
        assert(v@.take(b as int).drop_last() == v@.take(b - 1));
        b = b - 1;
    }
    assert(v@.take(b as int) == v@.subrange(0, b as int));
    slice_chars(v, 0, b)
}

/// What `find_char_spec` finds is the first occurrence.
pub proof fn lemma_find_char(s: Seq<char>, c: char)
    ensures
        match find_char_spec(s, c) {
            Some(i) => 0 <= i < s.len() && s[i] == c && forall|j: int| 0 <= j < i ==> s[j] != c,
            None => forall|j: int| 0 <= j < s.len() ==> s[j] != c,
        },
    decreases s.len(),
{
    if s.len() > 0 && s[0] != c {
        lemma_find_char(s.drop_first(), c);
        assert forall|j: int| 1 <= j < s.len() implies s[j] == s.drop_first()[j - 1] by {}
    }
}

/// Index of the first `c` in `v`.
pub fn find_char(v: &[char], c: char) -> (r: Option<usize>)
    ensures
        match r {
            Some(i) => i < v.len() && v@[i as int] == c && find_char_spec(v@, c) == Some(i as int),
            None => find_char_spec(v@, c) is None,
        },
{
    proof { lemma_find_char(v@, c); }
    let mut i: usize = 0;
    assert(v@.skip(0) == v@);
    while i < v.len()
        invariant
            i <= v.len(),
            find_char_spec(v@, c) == match find_char_spec(v@.skip(i as int), c) {
                Some(k) => Some(k + i),
                None => None::<int>,
            },
        decreases v.len() - i,
    {
        if v[i] == c {
            return Some(i);
        }
        assert(v@.skip(i as int).drop_first() == v@.skip(i + 1));
        i = i + 1;
    }
    None
}


/// The ASCII digit for `d < 10`.
pub open spec fn digit_char(d: nat) -> char {
    ((d + 48) as u32) as char
}

/// Decimal spelling of `n` (no leading zeros; `0` is `"0"`).
pub open spec fn decimal_spec(n: nat) -> Seq<char>
    decreases n,
{
    if n < 10 {
        seq![digit_char(n)]
    } else {
        decimal_spec(n / 10).push(digit_char(n % 10))
    }
}

/// Decimal spelling of a signed integer, with a leading `-` when negative (what `{}` prints).
pub open spec fn signed_decimal_spec(v: int) -> Seq<char> {
    if v < 0 { seq!['-'] + decimal_spec((-v) as nat) } else { decimal_spec(v as nat) }
}

fn digit_to_char(d: u128) -> (c: char)
    requires
        d < 10,
    ensures
        c == digit_char(d as nat),
{
    let b: u8 = (d as u8) + 48;
    b as char
}

/// Decimal spelling of `n`.
pub fn u128_to_chars(n: u128) -> (r: Vec<char>)
    ensures
        r@ == decimal_spec(n as nat),
    decreases n,
{
    if n < 10 {
        let mut v = Vec::new();
        v.push(digit_to_char(n));
        v
    } else {
        let mut v = u128_to_chars(n / 10);
        v.push(digit_to_char(n % 10));
        v
    }
}

/// Decimal spelling of a signed 64-bit integer (as `format!("{}", v)`).
pub fn i64_to_chars(v: i64) -> (r: Vec<char>)
    ensures
        r@ == signed_decimal_spec(v as int),
{
    if v < 0 {
        let mag: u128 = (0i128 - (v as i128)) as u128;
        let digits = u128_to_chars(mag);
        let mut r = Vec::new();
        r.push('-');
        let mut i: usize = 0;
        while i < digits.len()
            invariant
                i <= digits.len(),
                r@ == seq!['-'] + digits@.take(i as int),
            decreases digits.len() - i,
        {
            r.push(digits[i]);
            assert(digits@.take(i + 1) == digits@.take(i as int).push(digits@[i as int]));
            i = i + 1;
        }
        assert(digits@.take(digits.len() as int) == digits@);
        r
    } else {
        u128_to_chars(v as u128)
    }
}

/// `a` followed by `b`.
pub fn concat_chars(a: &[char], b: &[char]) -> (r: Vec<char>)
    ensures
        r@ == a@ + b@,
{
    let mut r: Vec<char> = Vec::new();
    let mut i: usize = 0;
    while i < a.len()
        invariant
            i <= a.len(),
            r@ == a@.take(i as int),
        decreases a.len() - i,
    {
        r.push(a[i]);
        i = i + 1;
    }
    let mut j: usize = 0;
    while j < b.len()
        invariant
            j <= b.len(),
            i == a.len(),
            r@ == a@ + b@.take(j as int),
        decreases b.len() - j,
    {
        r.push(b[j]);
        assert(b@.take(j + 1) == b@.take(j as int).push(b@[j as int]));
        j = j + 1;
    }
    assert(a@.take(a.len() as int) == a@);
    assert(b@.take(b.len() as int) == b@);
    r
}

/// `"{a}__{b}"`: the flat name of member `b` under hierarchical prefix or array stem `a`.
pub open spec fn joined_name(a: Seq<char>, b: Seq<char>) -> Seq<char> {
    a + seq!['_', '_'] + b
}

/// `format!("{}__{}", a, b)` for two names.
pub fn join_names(a: &String, b: &String) -> (r: String)
    ensures
        r@ == joined_name(a@, b@),
{
    let mut s = a.clone();
    string_push(&mut s, '_');
    string_push(&mut s, '_');
    s.append(b.as_str());
    assert(s@ == joined_name(a@, b@));
    s
}

/// `format!("{}__{}", a, k)` for a name and an integer index.
pub fn join_name_index(a: &String, k: i64) -> (r: String)
    ensures
        r@ == joined_name(a@, signed_decimal_spec(k as int)),
{
    let digits = i64_to_chars(k);
    let ds = string_from_chars(&digits);
    join_names(a, &ds)
}

/// `format!("{}", k)`.
pub fn i64_to_string(k: i64) -> (r: String)
    ensures
        r@ == signed_decimal_spec(k as int),
{
    let digits = i64_to_chars(k);
    string_from_chars(&digits)
}


/// A path segment ends at `/`: appends the segment `cur` to `out`, after a `/` unless `out` is
/// empty or ends in one. Empty segments are dropped, and so is `.` once anything came before it.
pub open spec fn path_flush(out: Seq<char>, cur: Seq<char>, seen: bool) -> (Seq<char>, bool) {
    if cur.len() == 0 {
        (out, seen)
    } else if cur == seq!['.'] && seen {
        (out, seen)
    } else if out.len() > 0 && out.last() != '/' {
        (out + seq!['/'] + cur, true)
    } else {
        (out + cur, true)
    }
}

/// One character of a path: `/` ends the current segment, any other extends it.
pub open spec fn path_step(st: (Seq<char>, Seq<char>, bool), c: char) -> (Seq<char>, Seq<char>, bool) {
    if c == '/' {
        let f = path_flush(st.0, st.1, st.2);
        (f.0, seq![], f.1)
    } else {
        (st.0, st.1.push(c), st.2)
    }
}

/// [`path_step`] over every character of `t`, from the left.
pub open spec fn path_fold(st: (Seq<char>, Seq<char>, bool), t: Seq<char>) -> (Seq<char>, Seq<char>, bool)
    decreases t.len(),
{
    if t.len() == 0 {
        st
    } else {
        path_fold(path_step(st, t[0]), t.skip(1))
    }
}

/// The components of a path, as `std::path::Path` compares them, written out: a leading `/`
/// for the root, then the segments joined by `/`; repeated separators and a trailing one are
/// ignored, and `.` is dropped except as the first component of a relative path.
pub open spec fn path_norm_spec(s: Seq<char>) -> Seq<char> {
    let st = if s.len() > 0 && s[0] == '/' {
        path_fold((seq!['/'], seq![], true), s.skip(1))
    } else {
        path_fold((seq![], seq![], false), s)
    };
    path_flush(st.0, st.1, st.2).0
}

/// Appends `cur` to `out` as [`path_flush`] says.
fn path_flush_exec(out: &mut Vec<char>, cur: &Vec<char>, seen: bool) -> (r: bool)
    ensures
        (final(out)@, r) == path_flush(old(out)@, cur@, seen),
{
    if cur.len() == 0 {
        return seen;
    }
    if cur.len() == 1 && cur[0] == '.' && seen {
        assert(cur@ == seq!['.']);
        return seen;
    }
    assert(!(cur@ == seq!['.'] && seen));
    if out.len() > 0 && out[out.len() - 1] != '/' {
        out.push('/');
    }
    let mut i: usize = 0;
    let ghost base = out@;
    while i < cur.len()
        invariant
            i <= cur.len(),
            out@ == base + cur@.take(i as int),
        decreases cur.len() - i,
    {
        out.push(cur[i]);
        assert(cur@.take(i + 1) == cur@.take(i as int).push(cur@[i as int]));
        i = i + 1;
    }
    assert(cur@.take(cur.len() as int) == cur@);
    true
}

/// The components of the path `s` written out (see [`path_norm_spec`]).
pub fn path_norm(s: &str) -> (r: Vec<char>)
    ensures
        r@ == path_norm_spec(s@),
{
    let c = chars_of(s);
    let mut out: Vec<char> = Vec::new();
    let mut cur: Vec<char> = Vec::new();
    let mut seen = false;
    let mut i: usize = 0;
    if c.len() > 0 && c[0] == '/' {
        out.push('/');
        seen = true;
        i = 1;
    }
    let ghost t = c@.skip(i as int);
    let ghost init = (out@, cur@, seen);
    assert(c@.skip(0) == c@);
    assert(init == (if c@.len() > 0 && c@[0] == '/' {
        (seq!['/'], Seq::<char>::empty(), true)
    } else {
        (Seq::<char>::empty(), Seq::<char>::empty(), false)
    }));
    assert(t == (if c@.len() > 0 && c@[0] == '/' { c@.skip(1) } else { c@ }));
    while i < c.len()
        invariant
            i <= c.len(),
            path_fold((out@, cur@, seen), c@.skip(i as int)) == path_fold(init, t),
        decreases c.len() - i,
    {
        let ghost st = (out@, cur@, seen);
        assert(c@.skip(i as int)[0] == c@[i as int]);
        assert(c@.skip(i as int).skip(1) == c@.skip(i + 1));
        if c[i] == '/' {
            seen = path_flush_exec(&mut out, &cur, seen);
            cur = Vec::new();
            assert((out@, cur@, seen) == path_step(st, c@[i as int]));
        } else {
            cur.push(c[i]);
            assert((out@, cur@, seen) == path_step(st, c@[i as int]));
        }
        i = i + 1;
    }
    assert(c@.skip(i as int) == Seq::<char>::empty());
    assert(path_fold((out@, cur@, seen), c@.skip(i as int)) == (out@, cur@, seen));
    let _ = path_flush_exec(&mut out, &cur, seen);
    out
}

/// Whether the paths `a` and `b` have the same components (see [`path_norm_spec`]).
pub fn same_path(a: &str, b: &str) -> (r: bool)
    ensures
        r == (path_norm_spec(a@) == path_norm_spec(b@)),
{
    let x = path_norm(a);
    let y = path_norm(b);
    if x.len() != y.len() {
        return false;
    }
    let mut i: usize = 0;
    while i < x.len()
        invariant
            x.len() == y.len(),
            i <= x.len(),
            forall|k: int| 0 <= k < i ==> x@[k] == y@[k],
            x@ == path_norm_spec(a@),
            y@ == path_norm_spec(b@),
        decreases x.len() - i,
    {
        if x[i] != y[i] {
            assert(x@[i as int] != y@[i as int]);
            return false;
        }
        i = i + 1;
    }
    assert(x@ =~= y@);
    true
}

} // verus!
