//! Decimal integers: reading them from bytes and writing them as bytes.
use crate::wire::{
    all_digits, ascii_lower, decimal_value, digits_value, drop_sign, int_text, is_digit, is_exp_mark,
    is_float_text, is_float_word, lower_all, is_mantissa, nat_text, DOT, MINUS, PLUS,
};
use vstd::prelude::*;

verus! {

/// The magnitude of `i64::MIN`, the largest that any `i64` text spells.
const MAGNITUDE_LIMIT: u64 = 9223372036854775808;

pub proof fn lemma_digits_value_nonneg(t: Seq<u8>)
    requires
        all_digits(t),
    ensures
        digits_value(t) >= 0,
    decreases t.len(),
{
    if t.len() > 0 {
        let u = t.subrange(0, t.len() - 1);
        assert(all_digits(u)) by {
            assert forall|i: int| 0 <= i < u.len() implies is_digit(#[trigger] u[i]) by {
                assert(u[i] == t[i]);
            }
        }
        lemma_digits_value_nonneg(u);
    }
}

/// A prefix of a run of digits is worth no more than the whole run.
pub proof fn lemma_digits_value_prefix(t: Seq<u8>, k: int)
    requires
        all_digits(t),
        0 <= k <= t.len(),
    ensures
        digits_value(t.subrange(0, k)) <= digits_value(t),
    decreases t.len(),
{
    if k < t.len() {
        let u = t.subrange(0, t.len() - 1);
        assert(all_digits(u)) by {
            assert forall|i: int| 0 <= i < u.len() implies is_digit(#[trigger] u[i]) by {
                assert(u[i] == t[i]);
            }
        }
        lemma_digits_value_prefix(u, k);
        assert(u.subrange(0, k) =~= t.subrange(0, k));
        lemma_digits_value_nonneg(u);
        assert(is_digit(t[t.len() - 1]));
    } else {
        assert(t.subrange(0, k) =~= t);
    }
}

/// Reads the signed decimal integer that `s[a..b]` spells, if it spells one
/// within the range of `i64`.
pub fn parse_decimal(s: &[u8], a: usize, b: usize) -> (r: Option<i64>)
    requires
        a <= b <= s@.len(),
    ensures
        r matches Some(v) ==> decimal_value(s@.subrange(a as int, b as int)) == Some(v as int),
        r is None ==> decimal_value(s@.subrange(a as int, b as int)) is None,
{
    let ghost t = s@.subrange(a as int, b as int);
    let mut i: usize = a;
    let mut neg = false;
    if i < b && (s[i] == MINUS || s[i] == PLUS) {
        neg = s[i] == MINUS;
        i = i + 1;
    }
    assert(neg == (t.len() > 0 && t[0] == MINUS));
    let start: usize = i;
    let ghost d = s@.subrange(start as int, b as int);
    assert(d =~= (if t.len() > 0 && (t[0] == MINUS || t[0] == PLUS) { t.subrange(1, t.len() as int) } else { t }));
    if i == b {
        return None;
    }
    let mut acc: u64 = 0;
    while i < b
        invariant
            start <= i <= b <= s@.len(),
            d == s@.subrange(start as int, b as int),
            t == s@.subrange(a as int, b as int),
            d == (if t.len() > 0 && (t[0] == MINUS || t[0] == PLUS) { t.subrange(1, t.len() as int) } else { t }),
            neg == (t.len() > 0 && t[0] == MINUS),
            acc as int == digits_value(s@.subrange(start as int, i as int)),
            all_digits(s@.subrange(start as int, i as int)),
            acc <= MAGNITUDE_LIMIT,
        decreases b - i,
    {
        let c = s[i];
        if c < 48 || c > 57 {
            assert(d[i - start] == c);
            assert(!is_digit(d[i - start]));
            assert(!all_digits(d));
            assert(decimal_value(t) is None);
            return None;
        }
        let dig = (c - 48) as u64;
        let ghost next = s@.subrange(start as int, i + 1);
        assert(next.subrange(0, next.len() - 1) =~= s@.subrange(start as int, i as int));
        assert(next[next.len() - 1] == c);
        assert(digits_value(next) == acc * 10 + dig);
        assert(all_digits(next)) by {
            assert forall|j: int| 0 <= j < next.len() implies is_digit(#[trigger] next[j]) by {
                if j < next.len() - 1 {
                    assert(next[j] == s@.subrange(start as int, i as int)[j]);
                }
            }
        }
        if acc > (MAGNITUDE_LIMIT - dig) / 10 {
            proof {
                assert(acc * 10 + dig > MAGNITUDE_LIMIT) by (nonlinear_arith)
                    requires acc > (MAGNITUDE_LIMIT - dig) / 10, dig <= 9;
                if all_digits(d) {
                    lemma_digits_value_prefix(d, i + 1 - start);
                    assert(d.subrange(0, i + 1 - start) =~= next);
                }
            }
            return None;
        }
        proof {
            assert(acc * 10 + dig <= MAGNITUDE_LIMIT) by (nonlinear_arith)
                requires acc <= (MAGNITUDE_LIMIT - dig) / 10, dig <= 9;
        }
        acc = acc * 10 + dig;
        i = i + 1;
    }
    assert(s@.subrange(start as int, i as int) =~= d);
    if neg {
        if acc == MAGNITUDE_LIMIT {
            Some(i64::MIN)
        } else {
            Some(-(acc as i64))
        }
    } else if acc > i64::MAX as u64 {
        None
    } else {
        Some(acc as i64)
    }
}

/// Appends the decimal digits of `n`.
pub fn push_nat(out: &mut Vec<u8>, n: u64)
    ensures
        final(out)@ == old(out)@ + nat_text(n as nat),
    decreases n,
{
    if n >= 10 {
        push_nat(out, n / 10);
    }
    out.push((48 + n % 10) as u8);
    proof {
        if n < 10 {
            assert(nat_text(n as nat) =~= seq![(48 + n) as u8]);
        }
    }
}

/// Appends the decimal text of `n`, with a leading `-` when it is negative.
pub fn push_int(out: &mut Vec<u8>, n: i64)
    ensures
        final(out)@ == old(out)@ + int_text(n as int),
{
    if n < 0 {
        out.push(MINUS);
        let m: u64 = if n == i64::MIN { MAGNITUDE_LIMIT } else { (-n) as u64 };
        push_nat(out, m);
    } else {
        push_nat(out, n as u64);
    }
    assert(out@ =~= old(out)@ + int_text(n as int));
}

fn lower(b: u8) -> (r: u8)
    ensures
        r == ascii_lower(b),
{
    if 65 <= b && b <= 90 { b + 32 } else { b }
}

/// Whether `s[a..b]` is `inf`, `infinity` or `nan`, in any case.
fn float_word(s: &[u8], a: usize, b: usize) -> (r: bool)
    requires
        a <= b <= s@.len(),
    ensures
        r == is_float_word(s@.subrange(a as int, b as int)),
{
    let ghost u = s@.subrange(a as int, b as int);
    let ghost l = lower_all(u);
    let ghost inf = seq![105u8, 110, 102];
    let ghost infinity = seq![105u8, 110, 102, 105, 110, 105, 116, 121];
    let ghost nan = seq![110u8, 97, 110];
    if b - a == 3 {
        let r = (lower(s[a]) == 105 && lower(s[a + 1]) == 110 && lower(s[a + 2]) == 102)
            || (lower(s[a]) == 110 && lower(s[a + 1]) == 97 && lower(s[a + 2]) == 110);
        assert(l[0] == ascii_lower(s@[a as int]) && l[1] == ascii_lower(s@[a + 1]) && l[2] == ascii_lower(s@[a + 2]));
        if r {
            assert(l =~= inf || l =~= nan);
        } else {
            assert(l != inf && l != nan && l != infinity) by {
                if l == inf { assert(l[0] == inf[0] && l[1] == inf[1] && l[2] == inf[2]); }
                if l == nan { assert(l[0] == nan[0] && l[1] == nan[1] && l[2] == nan[2]); }
                if l == infinity { assert(l.len() == infinity.len()); }
            }
        }
        r
    } else if b - a == 8 {
        let mut j: usize = 0;
        let w: [u8; 8] = [105, 110, 102, 105, 110, 105, 116, 121];
        assert(w@ =~= infinity);
        while j < 8
            invariant
                j <= 8,
                b - a == 8,
                a <= b <= s@.len(),
                w@ == infinity,
                infinity == seq![105u8, 110, 102, 105, 110, 105, 116, 121],
                u == s@.subrange(a as int, b as int),
                l == lower_all(u),
                forall|x: int| 0 <= x < j ==> #[trigger] l[x] == infinity[x],
            decreases 8 - j,
        {
            if lower(s[a + j]) != w[j] {
                assert(u[j as int] == s@[a + j]);
                assert(l[j as int] != infinity[j as int]);
                assert(l.len() == 8);
                return false;
            }
            j = j + 1;
        }
        assert(l =~= infinity);
        true
    } else {
        assert(l.len() == b - a);
        false
    }
}

/// Whether `s[a..b]` is a mantissa: digits with at most one `.`, at least
/// one digit.
fn mantissa_ok(s: &[u8], a: usize, b: usize) -> (r: bool)
    requires
        a <= b <= s@.len(),
    ensures
        r == is_mantissa(s@.subrange(a as int, b as int)),
{
    let ghost u = s@.subrange(a as int, b as int);
    let mut i: usize = a;
    let mut dot: Option<usize> = None;
    let mut digit = false;
    while i < b
        invariant
            a <= i <= b <= s@.len(),
            u == s@.subrange(a as int, b as int),
            forall|x: int| 0 <= x < i - a ==> is_digit(#[trigger] u[x]) || u[x] == DOT,
            dot matches Some(d) ==> a <= d < i && u[d - a] == DOT,
            forall|x: int| 0 <= x < i - a && #[trigger] u[x] == DOT ==> (dot is Some && x == dot->0 - a),
            digit == exists|x: int| 0 <= x < i - a && is_digit(#[trigger] u[x]),
        decreases b - i,
    {
        let c = s[i];
        assert(u[i - a] == c);
        if c == DOT {
            if let Some(d) = dot {
                assert(u[d - a] == DOT && u[i - a] == DOT);
                return false;
            }
            dot = Some(i);
        } else if 48 <= c && c <= 57 {
            digit = true;
        } else {
            assert(!(is_digit(u[i - a]) || u[i - a] == DOT));
            return false;
        }
        i = i + 1;
    }
    digit
}

/// Whether `s[a..b]` is a float's exponent after its mark: an optional sign,
/// then at least one digit.
fn exponent_ok(s: &[u8], a: usize, b: usize) -> (r: bool)
    requires
        a <= b <= s@.len(),
    ensures
        r == ({ let e = drop_sign(s@.subrange(a as int, b as int)); e.len() > 0 && all_digits(e) }),
{
    let ghost u = s@.subrange(a as int, b as int);
    let mut i: usize = a;
    if a < b && (s[a] == PLUS || s[a] == MINUS) {
        i = a + 1;
    }
    let ghost e = s@.subrange(i as int, b as int);
    assert(a < b ==> u[0] == s@[a as int]);
    assert(e =~= drop_sign(u));
    if i == b {
        return false;
    }
    let start = i;
    while i < b
        invariant
            start <= i <= b <= s@.len(),
            e == s@.subrange(start as int, b as int),
            e == drop_sign(s@.subrange(a as int, b as int)),
            forall|x: int| 0 <= x < i - start ==> is_digit(#[trigger] e[x]),
        decreases b - i,
    {
        if s[i] < 48 || s[i] > 57 {
            assert(e[i - start] == s@[i as int]);
            assert(!is_digit(e[i - start]));
            return false;
        }
        i = i + 1;
    }
    true
}

/// Whether `s[a..b]` is the decimal text of a floating-point number.
pub fn float_ok(s: &[u8], a: usize, b: usize) -> (r: bool)
    requires
        a <= b <= s@.len(),
    ensures
        r == is_float_text(s@.subrange(a as int, b as int)),
{
    let ghost t = s@.subrange(a as int, b as int);
    let mut c: usize = a;
    if a < b && (s[a] == PLUS || s[a] == MINUS) {
        c = a + 1;
    }
    let ghost u = s@.subrange(c as int, b as int);
    assert(a < b ==> t[0] == s@[a as int]);
    assert(u =~= drop_sign(t));
    if float_word(s, c, b) {
        return true;
    }
    let mut k: usize = c;
    while k < b && !(s[k] == 101 || s[k] == 69)
        invariant
            c <= k <= b <= s@.len(),
            u == s@.subrange(c as int, b as int),
            forall|x: int| 0 <= x < k - c ==> !is_exp_mark(#[trigger] u[x]),
        decreases b - k,
    {
        k = k + 1;
    }
    if k == b {
        let r = mantissa_ok(s, c, b);
        assert(u.subrange(0, u.len() as int) =~= u);
        return r;
    }
    assert(is_exp_mark(u[k - c]));
    assert(!is_mantissa(u)) by {
        assert(!(is_digit(u[k - c]) || u[k - c] == DOT));
    }
    let r = mantissa_ok(s, c, k) && exponent_ok(s, k + 1, b);
    assert(u.subrange(0, k - c) =~= s@.subrange(c as int, k as int));
    assert(u.subrange(k - c + 1, u.len() as int) =~= s@.subrange(k + 1, b as int));
    if !r {
        assert forall|x: int| 0 <= x < u.len() && is_exp_mark(#[trigger] u[x]) && is_mantissa(u.subrange(0, x))
            implies !({ let e = drop_sign(u.subrange(x + 1, u.len() as int)); e.len() > 0 && all_digits(e) }) by {
            if x > k - c {
                let m = u.subrange(0, x);
                assert(m[k - c] == u[k - c]);
                assert(!(is_digit(m[k - c]) || m[k - c] == DOT));
            }
        }
    }
    r
}

} // verus!
