//! Number tokens: a decimal literal, an attribute name, or a literal
//! coefficient followed by an attribute name (`2STR`).

use vstd::prelude::*;
use crate::attrs::Attrs;
use crate::dice::RogErr;
use crate::num::{fits, trunc_div, Num, MAX_WHOLE, SCALE};

verus! {

pub open spec fn is_digit(c: char) -> bool {
    '0' <= c <= '9'
}

pub open spec fn digit_val(c: char) -> int {
    c as int - '0' as int
}

pub open spec fn all_digits(s: Seq<char>) -> bool {
    forall|i: int| 0 <= i < s.len() ==> is_digit(#[trigger] s[i])
}

/// The number that a run of digits writes.
pub open spec fn digits_value(s: Seq<char>) -> int
    decreases s.len(),
{
    if s.len() == 0 {
        0
    } else {
        digits_value(s.drop_last()) * 10 + digit_val(s.last())
    }
}

/// The first `n` fraction digits of `f`, zeros past its end, as a whole
/// number.
pub open spec fn frac_acc(f: Seq<char>, n: int) -> int
    decreases n,
{
    if n <= 0 {
        0
    } else {
        frac_acc(f, n - 1) * 10 + if n - 1 < f.len() { digit_val(f[n - 1]) } else { 0 }
    }
}

/// The first index at or after `i` that holds `c`, or the length.
pub open spec fn first_of(s: Seq<char>, c: char, i: int) -> int
    decreases s.len() - i,
{
    if i >= s.len() {
        s.len() as int
    } else if s[i] == c {
        i
    } else {
        first_of(s, c, i + 1)
    }
}

/// Whether a character starts an attribute name.
pub open spec fn starts_attr(c: char) -> bool {
    ('A' <= c <= 'Z') || c == '$'
}

/// The first index at or after `i` that starts an attribute name, or the
/// length.
pub open spec fn first_attr(s: Seq<char>, i: int) -> int
    decreases s.len() - i,
{
    if i >= s.len() {
        s.len() as int
    } else if starts_attr(s[i]) {
        i
    } else {
        first_attr(s, i + 1)
    }
}

/// The millionths that a decimal literal writes: digits with at most one
/// point, with a digit on at least one side of it. Digits past the sixth
/// after the point are dropped.
pub open spec fn decimal_value(s: Seq<char>) -> Result<int, RogErr> {
    let p = first_of(s, '.', 0);
    let w = s.subrange(0, p);
    let f = if p < s.len() { s.subrange(p + 1, s.len() as int) } else { Seq::<char>::empty() };
    if !all_digits(w) || !all_digits(f) || w.len() + f.len() == 0 {
        Err(RogErr::MalformedNumber)
    } else if !fits(digits_value(w) * SCALE + frac_acc(f, 6)) {
        Err(RogErr::Overflow)
    } else {
        Ok(digits_value(w) * SCALE + frac_acc(f, 6))
    }
}

/// The value of a number token: a literal alone, or a coefficient (one
/// when absent) times the attribute whose name starts at the first capital
/// letter or `$`.
pub open spec fn token_value(s: Seq<char>, attrs: Attrs) -> Result<int, RogErr> {
    let k = first_attr(s, 0);
    if k == s.len() {
        decimal_value(s)
    } else {
        let coef = if k == 0 { Ok(SCALE as int) } else { decimal_value(s.subrange(0, k)) };
        match coef {
            Err(e) => Err(e),
            Ok(c) => match attrs.get_spec(s.subrange(k, s.len() as int)) {
                None => Err(RogErr::InvalidAttribute),
                Some(a) => if fits(trunc_div(c * a.m, SCALE as int)) {
                    Ok(trunc_div(c * a.m, SCALE as int))
                } else {
                    Err(RogErr::Overflow)
                },
            },
        }
    }
}

pub(crate) proof fn lemma_digits_mono(s: Seq<char>, i: int)
    requires
        0 <= i <= s.len(),
        all_digits(s),
    ensures
        0 <= digits_value(s.subrange(0, i)) <= digits_value(s),
    decreases s.len() - i,
{
    if i < s.len() {
        lemma_digits_mono(s, i + 1);
        assert(s.subrange(0, i + 1).drop_last() =~= s.subrange(0, i));
    } else {
        assert(s.subrange(0, i) =~= s);
        lemma_digits_nonneg(s);
    }
}

proof fn lemma_digits_nonneg(s: Seq<char>)
    requires
        all_digits(s),
    ensures
        digits_value(s) >= 0,
    decreases s.len(),
{
    if s.len() > 0 {
        lemma_digits_nonneg(s.drop_last());
    }
}

proof fn lemma_frac_bound(f: Seq<char>, n: int)
    requires
        all_digits(f),
        0 <= n <= 6,
    ensures
        0 <= frac_acc(f, n) < 1000000,
        n <= 5 ==> frac_acc(f, n) < 100000,
        n <= 4 ==> frac_acc(f, n) < 10000,
        n <= 3 ==> frac_acc(f, n) < 1000,
        n <= 2 ==> frac_acc(f, n) < 100,
        n <= 1 ==> frac_acc(f, n) < 10,
        n <= 0 ==> frac_acc(f, n) < 1,
    decreases n,
{
    if n > 0 {
        lemma_frac_bound(f, n - 1);
    }
}

pub(crate) fn digit_of(c: char) -> (d: u64)
    requires
        is_digit(c),
    ensures
        d == digit_val(c),
        d < 10,
{
    (c as u32 - '0' as u32) as u64
}

/// The characters of a string.
pub fn chars_of(s: &str) -> (r: Vec<char>)
    ensures
        r@ == s@,
{
    let n = s.unicode_len();
    let mut r: Vec<char> = Vec::new();
    let mut i: usize = 0;
    while i < n
        invariant
            n == s@.len(),
            i <= n,
            r@ == s@.subrange(0, i as int),
        decreases n - i,
    {
        r.push(s.get_char(i));
        i += 1;
    }
    r
}

/// The value of the decimal literal in `s[lo..hi]`.
fn decimal_in(s: &Vec<char>, lo: usize, hi: usize) -> (r: Result<Num, RogErr>)
    requires
        lo <= hi <= s@.len(),
    ensures
        match decimal_value(s@.subrange(lo as int, hi as int)) {
            Ok(m) => r == Ok::<Num, RogErr>(Num { m: m as i64 }),
            Err(e) => r == Err::<Num, RogErr>(e),
        },
{
    let ghost t = s@.subrange(lo as int, hi as int);
    let mut p: usize = lo;
    while p < hi && s[p] != '.'
        invariant
            lo <= p <= hi <= s@.len(),
            first_of(t, '.', 0) == first_of(t, '.', p - lo),
            t == s@.subrange(lo as int, hi as int),
        decreases hi - p,
    {
        p += 1;
    }
    let ghost w = t.subrange(0, p - lo);
    let f_lo: usize = if p < hi { p + 1 } else { hi };
    let ghost f = if p < hi { t.subrange(p - lo + 1, t.len() as int) } else { Seq::<char>::empty() };
    assert(first_of(t, '.', 0) == p - lo);
    assert(f =~= s@.subrange(f_lo as int, hi as int));
    assert(w =~= s@.subrange(lo as int, p as int));
    let mut i: usize = lo;
    while i < p
        invariant
            lo <= i <= p <= hi <= s@.len(),
            w == s@.subrange(lo as int, p as int),
            t == s@.subrange(lo as int, hi as int),
            w == t.subrange(0, first_of(t, '.', 0)),
            f == if first_of(t, '.', 0) < t.len() {
                t.subrange(first_of(t, '.', 0) + 1, t.len() as int)
            } else {
                Seq::<char>::empty()
            },
            forall|j: int| lo <= j < i ==> is_digit(#[trigger] s@[j]),
        decreases p - i,
    {
        if !('0' <= s[i] && s[i] <= '9') {
            assert(!is_digit(w[i - lo]));
            return Err(RogErr::MalformedNumber);
        }
        i += 1;
    }
    let mut i: usize = f_lo;
    while i < hi
        invariant
            f_lo <= i <= hi <= s@.len(),
            f == s@.subrange(f_lo as int, hi as int),
            all_digits(w),
            t == s@.subrange(lo as int, hi as int),
            w == t.subrange(0, first_of(t, '.', 0)),
            f == if first_of(t, '.', 0) < t.len() {
                t.subrange(first_of(t, '.', 0) + 1, t.len() as int)
            } else {
                Seq::<char>::empty()
            },
            forall|j: int| f_lo <= j < i ==> is_digit(#[trigger] s@[j]),
        decreases hi - i,
    {
        if !('0' <= s[i] && s[i] <= '9') {
            assert(!is_digit(f[i - f_lo]));
            return Err(RogErr::MalformedNumber);
        }
        i += 1;
    }
    assert(all_digits(w));
    assert(all_digits(f));
    if p == lo && f_lo == hi {
        return Err(RogErr::MalformedNumber);
    }
    let mut whole: u64 = 0;
    let mut i: usize = lo;
    while i < p
        invariant
            lo <= i <= p <= hi <= s@.len(),
            all_digits(w),
            t == s@.subrange(lo as int, hi as int),
            w == t.subrange(0, first_of(t, '.', 0)),
            f == if first_of(t, '.', 0) < t.len() {
                t.subrange(first_of(t, '.', 0) + 1, t.len() as int)
            } else {
                Seq::<char>::empty()
            },
            w == s@.subrange(lo as int, p as int),
            whole == digits_value(w.subrange(0, i - lo)),
            whole <= MAX_WHOLE,
            all_digits(f),
        decreases p - i,
    {
        assert(is_digit(w[i - lo]));
        let d = digit_of(s[i]);
        assert(w.subrange(0, i - lo + 1).drop_last() =~= w.subrange(0, i - lo));
        if whole > (MAX_WHOLE - d) / 10 {
            proof {
                lemma_digits_mono(w, i - lo + 1);
            }
            assert(!fits(digits_value(w) * SCALE + frac_acc(f, 6))) by {
                lemma_frac_bound(f, 6);
            }
            return Err(RogErr::Overflow);
        }
        whole = whole * 10 + d;
        i += 1;
    }
    assert(w.subrange(0, p - lo) =~= w);
    let mut frac: u64 = 0;
    let mut n: usize = 0;
    while n < 6
        invariant
            n <= 6,
            f_lo <= hi <= s@.len(),
            all_digits(f),
            f == s@.subrange(f_lo as int, hi as int),
            frac == frac_acc(f, n as int),
        decreases 6 - n,
    {
        proof {
            lemma_frac_bound(f, n as int);
        }
        let d: u64 = if n < hi - f_lo {
            assert(is_digit(f[n as int]));
            digit_of(s[f_lo + n])
        } else {
            0
        };
        frac = frac * 10 + d;
        n += 1;
    }
    proof {
        lemma_frac_bound(f, 6);
    }
    let total: u64 = whole * 1000000 + frac;
    if total > i64::MAX as u64 {
        return Err(RogErr::Overflow);
    }
    Ok(Num { m: total as i64 })
}

/// The errors that reading a number token can give.
pub open spec fn token_error(e: RogErr) -> bool {
    e == RogErr::MalformedNumber || e == RogErr::Overflow || e == RogErr::InvalidAttribute
}

/// The value of a number token, read against the attributes.
pub fn parse_number(text: &str, attrs: &Attrs) -> (r: Result<Num, RogErr>)
    requires
        attrs.wf(),
    ensures
        match token_value(text@, *attrs) {
            Ok(m) => r == Ok::<Num, RogErr>(Num { m: m as i64 }),
            Err(e) => r == Err::<Num, RogErr>(e),
        },
        r matches Err(e) ==> token_error(e),
{
    let s = chars_of(text);
    let mut k: usize = 0;
    while k < s.len() && !(('A' <= s[k] && s[k] <= 'Z') || s[k] == '$')
        invariant
            k <= s@.len(),
            first_attr(s@, 0) == first_attr(s@, k as int),
        decreases s@.len() - k,
    {
        k += 1;
    }
    assert(first_attr(s@, 0) == k);
    if k == s.len() {
        assert(s@.subrange(0, k as int) =~= s@);
        return decimal_in(&s, 0, k);
    }
    let coef = if k == 0 {
        Num::one()
    } else {
        match decimal_in(&s, 0, k) {
            Ok(c) => c,
            Err(e) => {
                return Err(e);
            },
        }
    };
    let name = String::from_str(text.substring_char(k, s.len()));
    match attrs.get(&name) {
        None => Err(RogErr::InvalidAttribute),
        Some(a) => match coef.mul(a) {
            Some(v) => Ok(v),
            None => Err(RogErr::Overflow),
        },
    }
}

} // verus!
