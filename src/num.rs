//! Fixed-point numbers: a value is held as a whole count of millionths.

use vstd::prelude::*;
use crate::text::{digit_char, int_text, nat_text, push_digit, push_int, push_nat};

verus! {

/// Millionths in one unit.
pub const SCALE: i64 = 1000000;

/// The largest whole number that a `Num` holds.
pub const MAX_WHOLE: u64 = 9223372036854;

/// A fixed-point number worth `m / SCALE`.
#[derive(Clone, Copy, Debug, PartialEq, Eq, Structural)]
pub struct Num {
    pub m: i64,
}

/// Whether an integer fits in an `i64`.
pub open spec fn fits(x: int) -> bool {
    i64::MIN <= x <= i64::MAX
}

pub open spec fn abs(x: int) -> int {
    if x < 0 { -x } else { x }
}

/// Division rounded toward zero.
pub open spec fn trunc_div(x: int, y: int) -> int {
    let q = abs(x) / abs(y);
    if (x < 0) != (y < 0) { -q } else { q }
}

/// The largest multiple of `SCALE` that is at most `m`.
pub open spec fn floor_m(m: int) -> int {
    (m / SCALE as int) * SCALE as int
}

/// The smallest multiple of `SCALE` that is at least `m`.
pub open spec fn ceil_m(m: int) -> int {
    -floor_m(-m)
}

/// The multiple of `SCALE` nearest to `m`, halves away from zero.
pub open spec fn round_m(m: int) -> int {
    if m >= 0 {
        floor_m(m + SCALE as int / 2)
    } else {
        -floor_m(-m + SCALE as int / 2)
    }
}

/// `w` decimal digits of `f`, most significant first, zeros in front.
pub open spec fn pad_digits(f: nat, w: nat) -> Seq<char>
    decreases w,
{
    if w == 0 {
        Seq::empty()
    } else {
        pad_digits(f / 10, (w - 1) as nat).push(digit_char(f % 10))
    }
}

/// `w` decimal digits of `f` without the zeros at the end.
pub open spec fn frac_text(f: nat, w: nat) -> Seq<char>
    decreases w,
{
    if w > 0 && f % 10 == 0 {
        frac_text(f / 10, (w - 1) as nat)
    } else {
        pad_digits(f, w)
    }
}

/// The natural text of a fixed-point number: its whole part, then a point
/// and the fraction digits that are not trailing zeros, if any.
pub open spec fn num_text(m: int) -> Seq<char> {
    let a = abs(m);
    let whole = nat_text((a / SCALE as int) as nat);
    let frac = a % SCALE as int;
    let sign = if m < 0 { seq!['-'] } else { Seq::<char>::empty() };
    if frac == 0 {
        sign + whole
    } else {
        sign + whole + seq!['.'] + frac_text(frac as nat, 6)
    }
}

/// The text of a number rounded to a whole one.
pub open spec fn rounded_text(m: int) -> Seq<char> {
    int_text(round_m(m) / SCALE as int)
}

fn push_pad(s: &mut String, f: u64, w: u64)
    ensures
        final(s)@ == old(s)@ + pad_digits(f as nat, w as nat),
    decreases w,
{
    if w > 0 {
        push_pad(s, f / 10, w - 1);
        push_digit(s, f % 10);
    }
}

fn push_frac(s: &mut String, f: u64, w: u64)
    ensures
        final(s)@ == old(s)@ + frac_text(f as nat, w as nat),
    decreases w,
{
    if w > 0 && f % 10 == 0 {
        push_frac(s, f / 10, w - 1);
    } else {
        push_pad(s, f, w);
    }
}

proof fn lemma_i64_product(a: int, b: int)
    by (nonlinear_arith)
    requires
        i64::MIN <= a <= i64::MAX,
        i64::MIN <= b <= i64::MAX,
    ensures
        -0x4000_0000_0000_0000_0000_0000_0000_0000 <= a * b <= 0x4000_0000_0000_0000_0000_0000_0000_0000,
{
}

/// Division rounded toward zero, on operands of at most 127 bits.
fn signed_quotient(x: i128, y: i128) -> (q: i128)
    requires
        y != 0,
        -0x7fff_ffff_ffff_ffff_ffff_ffff_ffff_ffff <= x,
        -0x7fff_ffff_ffff_ffff_ffff_ffff_ffff_ffff <= y,
    ensures
        q == trunc_div(x as int, y as int),
        abs(q as int) <= abs(x as int),
{
    let ax: u128 = if x < 0 { (-x) as u128 } else { x as u128 };
    let ay: u128 = if y < 0 { (-y) as u128 } else { y as u128 };
    let aq: u128 = ax / ay;
    assert(aq <= ax) by (nonlinear_arith)
        requires aq == ax / ay, ay >= 1;
    if (x < 0) != (y < 0) {
        -(aq as i128)
    } else {
        aq as i128
    }
}

impl Num {
    /// The number worth the whole number `i`.
    pub fn whole(i: i64) -> (r: Num)
        requires
            -(MAX_WHOLE as int) <= i <= MAX_WHOLE,
        ensures
            r.m == i * SCALE,
    {
        Num { m: i * SCALE }
    }

    pub fn zero() -> (r: Num)
        ensures
            r.m == 0,
    {
        Num { m: 0 }
    }

    pub fn one() -> (r: Num)
        ensures
            r.m == SCALE,
    {
        Num { m: SCALE }
    }

    pub fn is_zero(&self) -> (r: bool)
        ensures
            r == (self.m == 0),
    {
        self.m == 0
    }

    /// The sum, if it can be held.
    pub fn add(self, o: Num) -> (r: Option<Num>)
        ensures
            r is Some <==> fits(self.m + o.m),
            r matches Some(v) ==> v.m == self.m + o.m,
    {
        match self.m.checked_add(o.m) {
            Some(m) => Some(Num { m }),
            None => None,
        }
    }

    /// The difference, if it can be held.
    pub fn sub(self, o: Num) -> (r: Option<Num>)
        ensures
            r is Some <==> fits(self.m - o.m),
            r matches Some(v) ==> v.m == self.m - o.m,
    {
        match self.m.checked_sub(o.m) {
            Some(m) => Some(Num { m }),
            None => None,
        }
    }

    /// The product, its last digit rounded toward zero, if it can be held.
    pub fn mul(self, o: Num) -> (r: Option<Num>)
        ensures
            r is Some <==> fits(trunc_div(self.m * o.m, SCALE as int)),
            r matches Some(v) ==> v.m == trunc_div(self.m * o.m, SCALE as int),
    {
        proof {
            lemma_i64_product(self.m as int, o.m as int);
        }
        let q: i128 = signed_quotient(self.m as i128 * (o.m as i128), SCALE as i128);
        if q < i64::MIN as i128 || q > i64::MAX as i128 {
            None
        } else {
            Some(Num { m: q as i64 })
        }
    }

    /// The quotient, its last digit rounded toward zero; `None` for a zero
    /// divisor or a quotient that cannot be held.
    pub fn div(self, o: Num) -> (r: Option<Num>)
        ensures
            r is Some <==> o.m != 0 && fits(trunc_div(self.m * SCALE, o.m as int)),
            r matches Some(v) ==> v.m == trunc_div(self.m * SCALE, o.m as int),
    {
        if o.m == 0 {
            return None;
        }
        proof {
            lemma_i64_product(self.m as int, SCALE as int);
        }
        let q: i128 = signed_quotient(self.m as i128 * (SCALE as i128), o.m as i128);
        if q < i64::MIN as i128 || q > i64::MAX as i128 {
            None
        } else {
            Some(Num { m: q as i64 })
        }
    }

    /// The negation, if it can be held.
    pub fn neg(self) -> (r: Option<Num>)
        ensures
            r is Some <==> self.m != i64::MIN,
            r matches Some(v) ==> v.m == -self.m,
    {
        if self.m == i64::MIN {
            None
        } else {
            Some(Num { m: -self.m })
        }
    }

    /// A hundredth of the number, rounded toward zero.
    pub fn percent(self) -> (r: Num)
        ensures
            r.m == trunc_div(self.m as int, 100),
    {
        let q: i128 = signed_quotient(self.m as i128, 100);
        Num { m: q as i64 }
    }

    /// The largest whole number not above this one, if it can be held.
    pub fn floor(self) -> (r: Option<Num>)
        ensures
            r is Some <==> fits(floor_m(self.m as int)),
            r matches Some(v) ==> v.m == floor_m(self.m as int),
    {
        let q: i64 = self.m / SCALE;
        let rem: i64 = self.m % SCALE;
        let f: i64 = if rem < 0 { q - 1 } else { q };
        assert(f == self.m as int / SCALE as int);
        if f < i64::MIN / SCALE {
            None
        } else {
            Some(Num { m: f * SCALE })
        }
    }

    /// The smallest whole number not below this one, if it can be held.
    pub fn ceil(self) -> (r: Option<Num>)
        ensures
            r is Some <==> fits(ceil_m(self.m as int)),
            r matches Some(v) ==> v.m == ceil_m(self.m as int),
    {
        let q: i64 = self.m / SCALE;
        let rem: i64 = self.m % SCALE;
        let c: i64 = if rem > 0 { q + 1 } else { q };
        assert(-c == (-self.m) / SCALE as int);
        if c > i64::MAX / SCALE {
            None
        } else {
            Some(Num { m: c * SCALE })
        }
    }

    /// The nearest whole number, halves away from zero, if it can be held.
    pub fn round(self) -> (r: Option<Num>)
        ensures
            r is Some <==> fits(round_m(self.m as int)),
            r matches Some(v) ==> v.m == round_m(self.m as int),
    {
        let a: i128 = if self.m < 0 { -(self.m as i128) } else { self.m as i128 };
        let w: i128 = (a + (SCALE as i128) / 2) / (SCALE as i128);
        let v: i128 = if self.m < 0 { -(w * SCALE as i128) } else { w * SCALE as i128 };
        if v < i64::MIN as i128 || v > i64::MAX as i128 {
            None
        } else {
            Some(Num { m: v as i64 })
        }
    }

    /// The natural text of the number.
    pub fn text(&self) -> (r: String)
        ensures
            r@ == num_text(self.m as int),
    {
        let mut s = String::new();
        let a: u64 = if self.m < 0 {
            if self.m == i64::MIN { 9223372036854775808u64 } else { (-self.m) as u64 }
        } else {
            self.m as u64
        };
        if self.m < 0 {
            s.append("-");
            proof { reveal_strlit("-"); }
        }
        push_nat(&mut s, a / (SCALE as u64));
        let frac: u64 = a % (SCALE as u64);
        if frac != 0 {
            s.append(".");
            proof { reveal_strlit("."); }
            push_frac(&mut s, frac, 6);
        }
        s
    }

    /// The text of the number rounded to a whole one.
    pub fn rounded_text(&self) -> (r: String)
        ensures
            r@ == rounded_text(self.m as int),
    {
        let a: i128 = if self.m < 0 { -(self.m as i128) } else { self.m as i128 };
        let w: i128 = (a + (SCALE as i128) / 2) / (SCALE as i128);
        let v: i128 = if self.m < 0 { -w } else { w };
        let mut s = String::new();
        push_int(&mut s, v as i64);
        s
    }
}

} // verus!
