//! Clock tokens of the transcoder's progress stream.
//!
//! A clock token has the shape `H:MM:SS.ffffff`: three components separated
//! by colons, each a non-negative decimal number (digits, optionally followed
//! by a dot and further digits).  The token denotes
//! `hours * 3600 + minutes * 60 + seconds` seconds.  This module parses such
//! tokens into whole microseconds; fraction digits beyond the sixth carry
//! less than a microsecond and are dropped.

use vstd::prelude::*;

verus! {

/// One second expressed in microseconds.
pub const MICROS_PER_SECOND: u64 = 1_000_000;

pub open spec fn is_digit(c: char) -> bool {
    '0' <= c && c <= '9'
}

pub open spec fn digit_val(c: char) -> int
    recommends
        is_digit(c),
{
    c as int - '0' as int
}

pub open spec fn all_digits(s: Seq<char>) -> bool {
    forall|i: int| 0 <= i < s.len() ==> is_digit(#[trigger] s[i])
}

/// The number a digit string denotes, most significant digit first.
pub open spec fn digits_val(s: Seq<char>) -> int
    recommends
        all_digits(s),
    decreases s.len(),
{
    if s.len() == 0 {
        0
    } else {
        digits_val(s.drop_last()) * 10 + digit_val(s.last())
    }
}

pub open spec fn pow10(n: nat) -> int
    decreases n,
{
    if n == 0 {
        1
    } else {
        10 * pow10((n - 1) as nat)
    }
}

/// Index of the first occurrence of `c` in `s`, or `s.len()` if `c` does not occur.
pub open spec fn first_index(s: Seq<char>, c: char) -> int
    decreases s.len(),
{
    if s.len() == 0 {
        0
    } else if s[0] == c {
        0
    } else {
        1 + first_index(s.skip(1), c)
    }
}

/// A decimal component: a non-empty run of digits, optionally followed by a
/// dot and any further digits.
pub open spec fn is_component(s: Seq<char>) -> bool {
    let d = first_index(s, '.');
    &&& d >= 1
    &&& all_digits(s.take(d))
    &&& (d < s.len() ==> all_digits(s.skip(d + 1)))
}

/// Value in microseconds of a fraction digit string: only the first six
/// digits are significant; shorter strings are padded with zeros.
pub open spec fn frac_micros(s: Seq<char>) -> int
    recommends
        all_digits(s),
{
    if s.len() >= 6 {
        digits_val(s.take(6))
    } else {
        digits_val(s) * pow10((6 - s.len()) as nat)
    }
}

/// Value of one decimal component, in microseconds.
pub open spec fn component_micros(s: Seq<char>) -> int
    recommends
        is_component(s),
{
    let d = first_index(s, '.');
    if d == s.len() {
        digits_val(s) * (MICROS_PER_SECOND as int)
    } else {
        digits_val(s.take(d)) * (MICROS_PER_SECOND as int) + frac_micros(s.skip(d + 1))
    }
}

/// A clock token: exactly three colon-separated decimal components.
pub open spec fn is_clock_token(s: Seq<char>) -> bool {
    let a = first_index(s, ':');
    let rest = s.skip(a + 1);
    let b = first_index(rest, ':');
    &&& a < s.len()
    &&& b < rest.len()
    &&& is_component(s.take(a))
    &&& is_component(rest.take(b))
    &&& is_component(rest.skip(b + 1))
}

/// The token's value: `hours * 3600 + minutes * 60 + seconds`, in microseconds.
pub open spec fn clock_micros(s: Seq<char>) -> int
    recommends
        is_clock_token(s),
{
    let a = first_index(s, ':');
    let rest = s.skip(a + 1);
    let b = first_index(rest, ':');
    component_micros(s.take(a)) * 3600 + component_micros(rest.take(b)) * 60 + component_micros(
        rest.skip(b + 1),
    )
}

pub proof fn lemma_first_index_bounds(s: Seq<char>, c: char)
    ensures
        0 <= first_index(s, c) <= s.len(),
        first_index(s, c) < s.len() ==> s[first_index(s, c)] == c,
    decreases s.len(),
{
    if s.len() > 0 && s[0] != c {
        lemma_first_index_bounds(s.skip(1), c);
    }
}

/// A position before which `c` does not occur, and at which `c` stands
/// (or which is the end), is the first occurrence.
pub proof fn lemma_first_index_is(s: Seq<char>, c: char, i: int)
    requires
        0 <= i <= s.len(),
        forall|j: int| 0 <= j < i ==> s[j] != c,
        i < s.len() ==> s[i] == c,
    ensures
        first_index(s, c) == i,
    decreases s.len(),
{
    if s.len() > 0 && s[0] != c {
        lemma_first_index_is(s.skip(1), c, i - 1);
    }
}

pub proof fn lemma_digits_val_nonneg(s: Seq<char>)
    requires
        all_digits(s),
    ensures
        digits_val(s) >= 0,
    decreases s.len(),
{
    if s.len() > 0 {
        assert(all_digits(s.drop_last()));
        lemma_digits_val_nonneg(s.drop_last());
    }
}

pub proof fn lemma_pow10_pos(n: nat)
    ensures
        pow10(n) >= 1,
    decreases n,
{
    if n > 0 {
        lemma_pow10_pos((n - 1) as nat);
    }
}

pub proof fn lemma_digits_val_bound(s: Seq<char>)
    requires
        all_digits(s),
    ensures
        digits_val(s) < pow10(s.len()),
    decreases s.len(),
{
    if s.len() > 0 {
        assert(all_digits(s.drop_last()));
        lemma_digits_val_bound(s.drop_last());
        lemma_pow10_pos(s.len() as nat);
    }
}

proof fn lemma_mul_lt_left(a: int, b: int, m: int)
    requires
        a < b,
        m >= 1,
    ensures
        a * m < b * m,
{
    assert(a * m < b * m) by (nonlinear_arith)
        requires
            a < b,
            m >= 1,
    ;
}

proof fn lemma_mul_nonneg(a: int, b: int)
    requires
        a >= 0,
        b >= 0,
    ensures
        a * b >= 0,
{
    assert(a * b >= 0) by (nonlinear_arith)
        requires
            a >= 0,
            b >= 0,
    ;
}

/// Extending a digit string to the right can only grow its value.
pub proof fn lemma_digits_val_prefix_le(s: Seq<char>, k: int)
    requires
        all_digits(s),
        0 <= k <= s.len(),
    ensures
        digits_val(s.take(k)) <= digits_val(s),
    decreases s.len() - k,
{
    if k < s.len() {
        let t = s.take(k + 1);
        assert(t.drop_last() =~= s.take(k));
        assert(all_digits(t));
        lemma_digits_val_nonneg(s.take(k));
        assert(digits_val(t) == digits_val(s.take(k)) * 10 + digit_val(s[k]));
        lemma_digits_val_prefix_le(s, k + 1);
    } else {
        assert(s.take(k) =~= s);
    }
}

pub proof fn lemma_pow10_add(m: nat, n: nat)
    ensures
        pow10(m) * pow10(n) == pow10(m + n),
    decreases m,
{
    if m == 0 {
    } else {
        lemma_pow10_add((m - 1) as nat, n);
        assert(pow10(m) * pow10(n) == 10 * (pow10((m - 1) as nat) * pow10(n)))
            by (nonlinear_arith)
            requires
                pow10(m) == 10 * pow10((m - 1) as nat),
        ;
    }
}

pub proof fn lemma_frac_micros_range(s: Seq<char>)
    requires
        all_digits(s),
    ensures
        0 <= frac_micros(s) < 1_000_000,
{
    assert(pow10(6) == 1_000_000) by {
        reveal_with_fuel(pow10, 7);
    }
    if s.len() >= 6 {
        assert(all_digits(s.take(6)));
        lemma_digits_val_nonneg(s.take(6));
        lemma_digits_val_bound(s.take(6));
    } else {
        lemma_digits_val_nonneg(s);
        lemma_digits_val_bound(s);
        lemma_pow10_pos((6 - s.len()) as nat);
        lemma_mul_lt_left(digits_val(s), pow10(s.len()), pow10((6 - s.len()) as nat));
        lemma_pow10_add(s.len() as nat, (6 - s.len()) as nat);
        lemma_mul_nonneg(digits_val(s), pow10((6 - s.len()) as nat));
    }
}

pub proof fn lemma_component_micros_nonneg(s: Seq<char>)
    requires
        is_component(s),
    ensures
        component_micros(s) >= 0,
{
    let d = first_index(s, '.');
    lemma_first_index_bounds(s, '.');
    lemma_digits_val_nonneg(s.take(d));
    if d < s.len() {
        lemma_frac_micros_range(s.skip(d + 1));
    } else {
        assert(s.take(d) =~= s);
    }
}

/// When some digit prefix of the integer part already exceeds `u64::MAX`,
/// the whole component does.
proof fn lemma_component_exceeds_if_digits_exceed(s: Seq<char>, d: int, k: int)
    requires
        is_component(s),
        d == first_index(s, '.'),
        0 < k <= d,
        digits_val(s.take(d).take(k)) > u64::MAX as int,
    ensures
        component_micros(s) > u64::MAX as int,
{
    lemma_first_index_bounds(s, '.');
    let ip = s.take(d);
    lemma_digits_val_prefix_le(ip, k);
    lemma_digits_val_nonneg(ip);
    if d == s.len() {
        assert(ip =~= s);
    } else {
        lemma_frac_micros_range(s.skip(d + 1));
    }
}

/// The component is at least its integer part scaled to microseconds.
proof fn lemma_component_ge_int_micros(s: Seq<char>, d: int)
    requires
        is_component(s),
        d == first_index(s, '.'),
    ensures
        component_micros(s) >= digits_val(s.take(d)) * (MICROS_PER_SECOND as int),
{
    lemma_first_index_bounds(s, '.');
    if d == s.len() {
        assert(s.take(d) =~= s);
    } else {
        lemma_frac_micros_range(s.skip(d + 1));
    }
}

/// The component's value is its integer part scaled to microseconds plus
/// the microsecond value of its fraction part.
proof fn lemma_component_value_shape(s: Seq<char>, d: int, ival: int, fval: int)
    requires
        is_component(s),
        d == first_index(s, '.'),
        ival == digits_val(s.take(d)),
        d < s.len() ==> fval == frac_micros(s.skip(d + 1)),
        d == s.len() ==> fval == 0,
    ensures
        component_micros(s) == ival * (MICROS_PER_SECOND as int) + fval,
{
    lemma_first_index_bounds(s, '.');
    if d == s.len() {
        assert(s.take(d) =~= s);
    }
}

/// Scan for the first occurrence of `c` in `s` within `[from, to)`;
/// returns `to` if there is none.
#[verifier::loop_isolation(false)]
pub(crate) fn find_char(s: &str, from: usize, to: usize, c: char) -> (r: usize)
    requires
        from <= to <= s@.len(),
    ensures
        from <= r <= to,
        forall|j: int| from <= j < r ==> s@[j] != c,
        r < to ==> s@[r as int] == c,
{
    let mut i = from;
    while i < to
        invariant
            from <= i <= to,
            forall|j: int| from <= j < i ==> s@[j] != c,
        decreases to - i,
    {
        if s.get_char(i) == c {
            return i;
        }
        i = i + 1;
    }
    i
}

/// Parse the decimal component standing in `s` at `[from, to)` into
/// microseconds.  Returns the exact value when the text is a well-formed
/// component whose value fits in a `u64`, and nothing otherwise.
#[verifier::loop_isolation(false)]
fn parse_component(s: &str, from: usize, to: usize) -> (r: Option<u64>)
    requires
        from <= to <= s@.len(),
    ensures
        ({
            let sub = s@.subrange(from as int, to as int);
            r == (if is_component(sub) && component_micros(sub) <= u64::MAX as int {
                Some(component_micros(sub) as u64)
            } else {
                None::<u64>
            })
        }),
{
    let ghost sub = s@.subrange(from as int, to as int);
    let d = find_char(s, from, to, '.');
    proof {
        lemma_first_index_is(sub, '.', d - from);
    }
    if d == from {
        return None;
    }
    let ghost ipart = sub.take(d - from);
    // integer part: digits in [from, d)
    let mut int_val: u64 = 0;
    let mut i = from;
    while i < d
        invariant
            from <= i <= d,
            all_digits(ipart.take(i - from)),
            int_val == digits_val(ipart.take(i - from)),
        decreases d - i,
    {
        let c = s.get_char(i);
        if !('0' <= c && c <= '9') {
            proof {
                assert(ipart[i - from] == c);
                assert(!is_component(sub));
            }
            return None;
        }
        let dv: u64 = (c as u32 as u64) - ('0' as u32 as u64);
        proof {
            assert(digit_val(c) == dv as int);
            assert(ipart.take(i - from).push(c) =~= ipart.take(i - from + 1));
            assert(ipart.take(i - from + 1).drop_last() =~= ipart.take(i - from));
            assert(ipart.take(i - from + 1).last() == c);
            assert(digits_val(ipart.take(i - from + 1)) == int_val * 10 + dv);
        }
        let next = match int_val.checked_mul(10) {
            Some(v) => v.checked_add(dv),
            None => None,
        };
        match next {
            Some(v) => {
                int_val = v;
            },
            None => {
                // the integer part alone already exceeds the result range
                proof {
                    if is_component(sub) {
                        lemma_component_exceeds_if_digits_exceed(sub, d - from, i - from + 1);
                    }
                }
                return None;
            },
        }
        i = i + 1;
    }
    proof {
        assert(ipart.take(d - from) =~= ipart);
    }
    // scale the integer part to microseconds
    let int_micros = match int_val.checked_mul(MICROS_PER_SECOND) {
        Some(v) => v,
        None => {
            proof {
                if is_component(sub) {
                    lemma_component_ge_int_micros(sub, d - from);
                }
            }
            return None;
        },
    };
    // fraction part: digits in [d + 1, to), the first six significant
    let ghost fpart = sub.skip(d - from + 1);
    let mut frac_val: u64 = 0;
    if d < to {
        let mut count: usize = 0;
        let mut j = d + 1;
        while j < to
            invariant
                d + 1 <= j <= to,
                all_digits(fpart.take(j - d - 1)),
                count == (if j - d - 1 <= 6 {
                    j - d - 1
                } else {
                    6
                }),
                frac_val == digits_val(fpart.take(count as int)),
                frac_val < pow10(count as nat),
            decreases to - j,
        {
            let c = s.get_char(j);
            if !('0' <= c && c <= '9') {
                proof {
                    assert(fpart[j - d - 1] == c);
                    assert(!is_component(sub));
                }
                return None;
            }
            proof {
                assert(fpart.take(j - d - 1).push(c) =~= fpart.take(j - d));
            }
            if count < 6 {
                let dv: u64 = (c as u32 as u64) - ('0' as u32 as u64);
                proof {
                    assert(digit_val(c) == dv as int);
                    assert(fpart.take(count as int).push(c) =~= fpart.take(count as int + 1));
                    assert(fpart.take(count as int + 1).drop_last() =~= fpart.take(count as int));
                    assert(fpart.take(count as int + 1).last() == c);
                    assert(pow10((count + 1) as nat) == 10 * pow10(count as nat));
                    assert(pow10(count as nat) <= pow10(5)) by {
                        lemma_pow10_le(count as nat, 5);
                    }
                    assert(pow10(5) == 100_000) by {
                        reveal_with_fuel(pow10, 6);
                    }
                }
                frac_val = frac_val * 10 + dv;
                count = count + 1;
            }
            j = j + 1;
        }
        proof {
            assert(fpart.take(to - d - 1) =~= fpart);
        }
        // pad short fractions with zeros up to microsecond precision
        proof {
            if fpart.len() >= 6 {
                assert(count as int == 6);
                assert(fpart.take(count as int) =~= fpart.take(6));
                assert(frac_micros(fpart) == digits_val(fpart.take(6)));
                assert(digits_val(fpart.take(6)) == frac_val);
                assert(frac_val * pow10((6 - count) as nat) == frac_val * 1);
                assert(frac_micros(fpart) == frac_val * pow10((6 - count) as nat));
            } else {
                assert(fpart.take(count as int) =~= fpart);
            }
        }
        while count < 6
            invariant
                count <= 6,
                all_digits(fpart),
                frac_val < pow10(count as nat),
                frac_micros(fpart) == frac_val * pow10((6 - count) as nat),
            decreases 6 - count,
        {
            proof {
                assert(pow10((6 - count) as nat) == 10 * pow10((6 - count - 1) as nat));
                assert((frac_val * 10) * pow10((6 - count - 1) as nat) == frac_val * (10 * pow10(
                    (6 - count - 1) as nat,
                ))) by (nonlinear_arith);
                assert(pow10((count + 1) as nat) == 10 * pow10(count as nat));
                assert(pow10(count as nat) <= pow10(5)) by {
                    lemma_pow10_le(count as nat, 5);
                }
                assert(pow10(5) == 100_000) by {
                    reveal_with_fuel(pow10, 6);
                }
            }
            frac_val = frac_val * 10;
            count = count + 1;
        }
        proof {
            lemma_frac_micros_range(fpart);
            assert(frac_val * pow10(0) == frac_val);
        }
    }
    // here frac_val is the microsecond value of the fraction part, or zero
    // when the component has none
    let total = match int_micros.checked_add(frac_val) {
        Some(v) => v,
        None => {
            proof {
                lemma_component_value_shape(sub, d - from, int_val as int, frac_val as int);
            }
            return None;
        },
    };
    proof {
        lemma_component_value_shape(sub, d - from, int_val as int, frac_val as int);
    }
    Some(total)
}

pub proof fn lemma_pow10_le(m: nat, n: nat)
    requires
        m <= n,
    ensures
        pow10(m) <= pow10(n),
    decreases n,
{
    if m < n {
        lemma_pow10_le(m, (n - 1) as nat);
        lemma_pow10_pos((n - 1) as nat);
    }
}

/// Each weighted part of a well-formed token is bounded by the whole value.
proof fn lemma_clock_parts_le_total(s: Seq<char>)
    requires
        is_clock_token(s),
    ensures
        ({
            let a = first_index(s, ':');
            let rest = s.skip(a + 1);
            let b = first_index(rest, ':');
            let h = component_micros(s.take(a));
            let m = component_micros(rest.take(b));
            let sec = component_micros(rest.skip(b + 1));
            &&& h >= 0
            &&& m >= 0
            &&& sec >= 0
            &&& h <= h * 3600
            &&& m <= m * 60
            &&& h * 3600 <= clock_micros(s)
            &&& m * 60 <= clock_micros(s)
            &&& sec <= clock_micros(s)
            &&& h * 3600 + m * 60 <= clock_micros(s)
        }),
{
    let a = first_index(s, ':');
    let rest = s.skip(a + 1);
    let b = first_index(rest, ':');
    lemma_component_micros_nonneg(s.take(a));
    lemma_component_micros_nonneg(rest.take(b));
    lemma_component_micros_nonneg(rest.skip(b + 1));
}

/// Parse a clock token into microseconds.
///
/// Returns the token's exact value — `hours * 3600 + minutes * 60 + seconds`,
/// scaled to microseconds — precisely when the token is well formed and that
/// value fits in a `u64`; returns nothing on any malformed token, so callers
/// can silently skip unusable progress lines.
pub fn parse_time(token: &str) -> (r: Option<u64>)
    ensures
        r == (if is_clock_token(token@) && clock_micros(token@) <= u64::MAX as int {
            Some(clock_micros(token@) as u64)
        } else {
            None::<u64>
        }),
{
    let n = token.unicode_len();
    let a = find_char(token, 0, n, ':');
    proof {
        lemma_first_index_is(token@, ':', a as int);
    }
    if a == n {
        return None;
    }
    let b = find_char(token, a + 1, n, ':');
    let ghost rest = token@.skip(a + 1);
    proof {
        assert(forall|j: int| 0 <= j < b - a - 1 ==> rest[j] != ':');
        lemma_first_index_is(rest, ':', b - a - 1);
    }
    if b == n {
        return None;
    }
    let hours = parse_component(token, 0, a);
    let minutes = parse_component(token, a + 1, b);
    let seconds = parse_component(token, b + 1, n);
    proof {
        assert(token@.subrange(0, a as int) =~= token@.take(a as int));
        assert(token@.subrange(a as int + 1, b as int) =~= rest.take(b - a - 1));
        assert(token@.subrange(b as int + 1, n as int) =~= rest.skip(b - a));
    }
    let (h, m, sec) = match (hours, minutes, seconds) {
        (Some(h), Some(m), Some(sec)) => (h, m, sec),
        _ => {
            proof {
                if is_clock_token(token@) {
                    lemma_clock_parts_le_total(token@);
                }
            }
            return None;
        },
    };
    proof {
        assert(is_clock_token(token@));
        lemma_clock_parts_le_total(token@);
    }
    let hm = match h.checked_mul(3600) {
        Some(v) => v,
        None => {
            return None;
        },
    };
    let mm = match m.checked_mul(60) {
        Some(v) => v,
        None => {
            return None;
        },
    };
    let t1 = match hm.checked_add(mm) {
        Some(v) => v,
        None => {
            return None;
        },
    };
    match t1.checked_add(sec) {
        Some(v) => Some(v),
        None => None,
    }
}

/// A well-formed token's value is non-negative.
pub proof fn lemma_clock_micros_nonneg(s: Seq<char>)
    requires
        is_clock_token(s),
    ensures
        clock_micros(s) >= 0,
{
    let a = first_index(s, ':');
    let rest = s.skip(a + 1);
    let b = first_index(rest, ':');
    lemma_component_micros_nonneg(s.take(a));
    lemma_component_micros_nonneg(rest.take(b));
    lemma_component_micros_nonneg(rest.skip(b + 1));
}

/// A whitespace character that the probe's output may carry around the number.
pub open spec fn is_space(c: char) -> bool {
    c == ' ' || c == '\n' || c == '\t' || c == '\r'
}

/// How many whitespace characters open `s`.
pub open spec fn leading_spaces(s: Seq<char>) -> int
    decreases s.len(),
{
    if s.len() == 0 {
        0
    } else if !is_space(s[0]) {
        0
    } else {
        1 + leading_spaces(s.skip(1))
    }
}

/// How many whitespace characters close `s`.
pub open spec fn trailing_spaces(s: Seq<char>) -> int
    decreases s.len(),
{
    if s.len() == 0 {
        0
    } else if !is_space(s.last()) {
        0
    } else {
        1 + trailing_spaces(s.drop_last())
    }
}

/// `s` without its surrounding whitespace.
pub open spec fn trimmed(s: Seq<char>) -> Seq<char> {
    if leading_spaces(s) == s.len() {
        Seq::empty()
    } else {
        s.subrange(leading_spaces(s), s.len() - trailing_spaces(s))
    }
}

/// A run of leading whitespace ending at a non-space (or at the end) is the
/// whole leading whitespace.
pub proof fn lemma_leading_spaces_is(s: Seq<char>, i: int)
    requires
        0 <= i <= s.len(),
        forall|j: int| 0 <= j < i ==> is_space(#[trigger] s[j]),
        i < s.len() ==> !is_space(s[i]),
    ensures
        leading_spaces(s) == i,
    decreases s.len(),
{
    if s.len() > 0 && is_space(s[0]) {
        lemma_leading_spaces_is(s.skip(1), i - 1);
    }
}

/// A run of trailing whitespace opening at a non-space (or at the start) is
/// the whole trailing whitespace.
pub proof fn lemma_trailing_spaces_is(s: Seq<char>, i: int)
    requires
        0 <= i <= s.len(),
        forall|j: int| s.len() - i <= j < s.len() ==> is_space(#[trigger] s[j]),
        i < s.len() ==> !is_space(s[s.len() - 1 - i]),
    ensures
        trailing_spaces(s) == i,
    decreases s.len(),
{
    if s.len() > 0 && is_space(s.last()) {
        lemma_trailing_spaces_is(s.drop_last(), i - 1);
    }
}

fn is_space_char(c: char) -> (r: bool)
    ensures
        r == is_space(c),
{
    c == ' ' || c == '\n' || c == '\t' || c == '\r'
}

/// Parse the probe tool's output — one decimal number of seconds, possibly
/// surrounded by whitespace — into microseconds.  Returns the exact value
/// when the trimmed text is a well-formed non-negative decimal number that
/// fits in a `u64`, and nothing otherwise, which the caller reports as a
/// probe failure.
#[verifier::loop_isolation(false)]
pub fn parse_duration(text: &str) -> (r: Option<u64>)
    ensures
        r == (if is_component(trimmed(text@)) && component_micros(trimmed(text@)) <= u64::MAX as int {
            Some(component_micros(trimmed(text@)) as u64)
        } else {
            None::<u64>
        }),
{
    let n = text.unicode_len();
    let mut lo: usize = 0;
    while lo < n && is_space_char(text.get_char(lo))
        invariant
            lo <= n,
            forall|j: int| 0 <= j < lo ==> is_space(#[trigger] text@[j]),
        decreases n - lo,
    {
        lo = lo + 1;
    }
    if lo == n {
        proof {
            lemma_leading_spaces_is(text@, n as int);
            assert(!is_component(trimmed(text@)));
        }
        return None;
    }
    proof {
        lemma_leading_spaces_is(text@, lo as int);
    }
    let mut hi: usize = n;
    while hi > lo && is_space_char(text.get_char(hi - 1))
        invariant
            lo <= hi <= n,
            forall|j: int| hi <= j < n ==> is_space(#[trigger] text@[j]),
        decreases hi,
    {
        hi = hi - 1;
    }
    proof {
        assert(hi > lo);
        lemma_trailing_spaces_is(text@, n - hi);
        assert(trimmed(text@) == text@.subrange(lo as int, hi as int));
    }
    parse_component(text, lo, hi)
}

} // verus!
